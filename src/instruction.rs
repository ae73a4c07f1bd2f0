use vstd::prelude::*;
use vstd::string::StringExecFns;

use crate::encoding::digits_of;
use crate::encoding::push_digits;

verus! {

// A 16-bit instruction word of a small teaching machine:
//
//   0000aaaabbbbtttt  sub rt,ra,rb
//   1000iiiiiiiitttt  movl rt,i
//   1001iiiiiiiitttt  movh rt,i
//   1110aaaa0000tttt  jz rt,ra      (0001 jnz, 0010 js, 0011 jns)
//   1111aaaa0000tttt  ld rt,ra      (0001 st)
/// A decoded instruction.
#[derive(PartialEq, Eq, Structural, Clone, Copy, Debug)]
pub enum I {
    SUB { rt: u8, ra: u8, rb: u8 },
    MOVL { rt: u8, i: u8 },
    MOVH { rt: u8, i: u8 },
    JZ { rt: u8, ra: u8 },
    JNZ { rt: u8, ra: u8 },
    JS { rt: u8, ra: u8 },
    JNS { rt: u8, ra: u8 },
    LD { rt: u8, ra: u8 },
    ST { rt: u8, ra: u8 },
}

/// Error types when converting `u16` to `I`
#[derive(PartialEq, Eq, Structural, Clone, Copy, Debug)]
pub enum ConversionError {
    /// Unknown opcode
    UnknownOpcode(u16),
}

/// Bits 12..16 of a word.
pub open spec fn opcode(w: u16) -> u16 {
    w / 4096
}

/// Bits 8..12 of a word.
pub open spec fn field_a(w: u16) -> u8 {
    ((w / 256) % 16) as u8
}

/// Bits 4..8 of a word.
pub open spec fn field_b(w: u16) -> u8 {
    ((w / 16) % 16) as u8
}

/// Bits 0..4 of a word.
pub open spec fn field_t(w: u16) -> u8 {
    (w % 16) as u8
}

/// Bits 4..12 of a word.
pub open spec fn field_imm(w: u16) -> u8 {
    ((w / 16) % 256) as u8
}

/// The instruction a word encodes, if any.
pub open spec fn decode(w: u16) -> Option<I> {
    let (rt, ra, rb) = (field_t(w), field_a(w), field_b(w));
    if opcode(w) == 0 {
        Some(I::SUB { rt, ra, rb })
    } else if opcode(w) == 8 {
        Some(I::MOVL { rt, i: field_imm(w) })
    } else if opcode(w) == 9 {
        Some(I::MOVH { rt, i: field_imm(w) })
    } else if opcode(w) == 14 && rb == 0 {
        Some(I::JZ { rt, ra })
    } else if opcode(w) == 14 && rb == 1 {
        Some(I::JNZ { rt, ra })
    } else if opcode(w) == 14 && rb == 2 {
        Some(I::JS { rt, ra })
    } else if opcode(w) == 14 && rb == 3 {
        Some(I::JNS { rt, ra })
    } else if opcode(w) == 15 && rb == 0 {
        Some(I::LD { rt, ra })
    } else if opcode(w) == 15 && rb == 1 {
        Some(I::ST { rt, ra })
    } else {
        None
    }
}

impl I {
    /// Decodes one instruction word.
    pub fn try_from(value: u16) -> (r: Result<I, ConversionError>)
        ensures
            match decode(value) {
                Some(i) => r == Ok::<I, ConversionError>(i),
                None => r == Err::<I, ConversionError>(ConversionError::UnknownOpcode(value)),
            },
    {
        let rt = (value % 16) as u8;
        let ra = ((value / 256) % 16) as u8;
        let sel = (value / 16) % 16;
        let imm = ((value / 16) % 256) as u8;
        let op = value / 4096;
        if op == 0 {
            Ok(I::SUB { rt, ra, rb: sel as u8 })
        } else if op == 8 {
            Ok(I::MOVL { rt, i: imm })
        } else if op == 9 {
            Ok(I::MOVH { rt, i: imm })
        } else if op == 14 {
            if sel == 0 {
                Ok(I::JZ { rt, ra })
            } else if sel == 1 {
                Ok(I::JNZ { rt, ra })
            } else if sel == 2 {
                Ok(I::JS { rt, ra })
            } else if sel == 3 {
                Ok(I::JNS { rt, ra })
            } else {
                Err(ConversionError::UnknownOpcode(value))
            }
        } else if op == 15 {
            if sel == 0 {
                Ok(I::LD { rt, ra })
            } else if sel == 1 {
                Ok(I::ST { rt, ra })
            } else {
                Err(ConversionError::UnknownOpcode(value))
            }
        } else {
            Err(ConversionError::UnknownOpcode(value))
        }
    }
}

/// The assembly text of an instruction: its mnemonic, then its operands, registers
/// written `r<n>` and immediates `#<n>`.
pub open spec fn text_of(i: I) -> Seq<char> {
    match i {
        I::SUB { rt, ra, rb } => "sub r"@ + digits_of(rt as nat) + ", r"@ + digits_of(ra as nat) + ", r"@
            + digits_of(rb as nat),
        I::MOVL { rt, i } => "movl r"@ + digits_of(rt as nat) + ", #"@ + digits_of(i as nat),
        I::MOVH { rt, i } => "movh r"@ + digits_of(rt as nat) + ", #"@ + digits_of(i as nat),
        I::JZ { rt, ra } => "jz r"@ + digits_of(rt as nat) + ", r"@ + digits_of(ra as nat),
        I::JNZ { rt, ra } => "jnz r"@ + digits_of(rt as nat) + ", r"@ + digits_of(ra as nat),
        I::JS { rt, ra } => "js r"@ + digits_of(rt as nat) + ", r"@ + digits_of(ra as nat),
        I::JNS { rt, ra } => "jns r"@ + digits_of(rt as nat) + ", r"@ + digits_of(ra as nat),
        I::LD { rt, ra } => "ld r"@ + digits_of(rt as nat) + ", r"@ + digits_of(ra as nat),
        I::ST { rt, ra } => "st r"@ + digits_of(rt as nat) + ", r"@ + digits_of(ra as nat),
    }
}

fn register_pair(mnemonic: &str, rt: u8, ra: u8) -> (r: String)
    ensures
        r@ == mnemonic@ + " r"@ + digits_of(rt as nat) + ", r"@ + digits_of(ra as nat),
{
    let mut out = String::from_str(mnemonic);
    out.append(" r");
    push_digits(&mut out, rt as u128);
    out.append(", r");
    push_digits(&mut out, ra as u128);
    out
}

impl I {
    /// The instruction as assembly text, such as `sub r1, r2, r3`.
    pub fn to_text(&self) -> (r: String)
        ensures
            r@ == text_of(*self),
    {
        let r = match *self {
            I::SUB { rt, ra, rb } => {
                let mut out = register_pair("sub", rt, ra);
                out.append(", r");
                push_digits(&mut out, rb as u128);
                out
            },
            I::MOVL { rt, i } | I::MOVH { rt, i } => {
                let mut out = String::from_str(
                    if matches!(*self, I::MOVL { .. }) {
                        "movl r"
                    } else {
                        "movh r"
                    },
                );
                push_digits(&mut out, rt as u128);
                out.append(", #");
                push_digits(&mut out, i as u128);
                out
            },
            I::JZ { rt, ra } => register_pair("jz", rt, ra),
            I::JNZ { rt, ra } => register_pair("jnz", rt, ra),
            I::JS { rt, ra } => register_pair("js", rt, ra),
            I::JNS { rt, ra } => register_pair("jns", rt, ra),
            I::LD { rt, ra } => register_pair("ld", rt, ra),
            I::ST { rt, ra } => register_pair("st", rt, ra),
        };
        proof {
            reveal_strlit("sub");
            reveal_strlit("sub r");
            reveal_strlit("jz");
            reveal_strlit("jz r");
            reveal_strlit("jnz");
            reveal_strlit("jnz r");
            reveal_strlit("js");
            reveal_strlit("js r");
            reveal_strlit("jns");
            reveal_strlit("jns r");
            reveal_strlit("ld");
            reveal_strlit("ld r");
            reveal_strlit("st");
            reveal_strlit("st r");
            reveal_strlit(" r");
            reveal_strlit(", r");
            assert(r@ =~= text_of(*self));
        }
        r
    }
}

} // verus!
