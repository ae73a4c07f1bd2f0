use vstd::prelude::*;
use vstd::string::StrSliceExecFns;
use vstd::string::StringExecFns;

verus! {

/// The character that separates the segments of a scope path, and a scope path from a
/// variable name, in the simulator's item names.
pub const SEPARATOR: char = ' ';

/// The pieces of `s` between occurrences of `sep`; always at least one piece.
pub open spec fn split_on(s: Seq<char>, sep: char) -> Seq<Seq<char>>
    decreases s.len(),
{
    if s.len() == 0 {
        seq![Seq::<char>::empty()]
    } else {
        let p = split_on(s.drop_last(), sep);
        if s.last() == sep {
            p.push(Seq::<char>::empty())
        } else {
            p.update(p.len() - 1, p.last().push(s.last()))
        }
    }
}

/// The pieces joined with `sep` between each two of them.
pub open spec fn join_with(parts: Seq<Seq<char>>, sep: char) -> Seq<char>
    decreases parts.len(),
{
    if parts.len() == 0 {
        Seq::<char>::empty()
    } else if parts.len() == 1 {
        parts[0]
    } else {
        join_with(parts.drop_last(), sep).push(sep) + parts.last()
    }
}

pub proof fn lemma_split_nonempty(s: Seq<char>, sep: char)
    ensures
        split_on(s, sep).len() >= 1,
    decreases s.len(),
{
    if s.len() > 0 {
        lemma_split_nonempty(s.drop_last(), sep);
    }
}

/// The strings' contents.
pub open spec fn strings_view(v: Seq<String>) -> Seq<Seq<char>> {
    v.map_values(|s: String| s@)
}

/// Splits `s` at every `sep`.
pub fn split_words(s: &str, sep: char) -> (r: Vec<String>)
    ensures
        strings_view(r@) == split_on(s@, sep),
{
    let n = s.unicode_len();
    let mut parts: Vec<String> = Vec::new();
    let mut start: usize = 0;
    let mut i: usize = 0;
    proof {
        assert(s@.take(0) =~= Seq::<char>::empty());
    }
    while i < n
        invariant
            n == s@.len(),
            start <= i <= n,
            split_on(s@.take(i as int), sep) == strings_view(parts@).push(
                s@.subrange(start as int, i as int),
            ),
        decreases n - i,
    {
        let c = s.get_char(i);
        proof {
            assert(s@.take(i + 1).drop_last() =~= s@.take(i as int));
            assert(s@.take(i + 1).last() == c);
        }
        if c == sep {
            let piece = String::from_str(s.substring_char(start, i));
            proof {
                assert(strings_view(parts@.push(piece)) =~= strings_view(parts@).push(piece@));
                assert(s@.subrange((i + 1) as int, (i + 1) as int) =~= Seq::<char>::empty());
            }
            parts.push(piece);
            start = i + 1;
        } else {
            proof {
                assert(s@.subrange(start as int, i + 1) =~= s@.subrange(start as int, i as int).push(c));
                let v = strings_view(parts@).push(s@.subrange(start as int, i as int));
                assert(v.update(v.len() - 1, v.last().push(c)) =~= strings_view(parts@).push(
                    s@.subrange(start as int, i + 1),
                ));
            }
        }
        i = i + 1;
    }
    let last = String::from_str(s.substring_char(start, n));
    proof {
        assert(s@.take(n as int) =~= s@);
        assert(strings_view(parts@.push(last)) =~= strings_view(parts@).push(last@));
    }
    parts.push(last);
    parts
}

/// Joins the strings with `sep` between each two of them.
pub fn join_words(parts: &Vec<String>, sep: char) -> (r: String)
    ensures
        r@ == join_with(strings_view(parts@), sep),
{
    let mut out = String::new();
    let mut i: usize = 0;
    let ghost v = strings_view(parts@);
    while i < parts.len()
        invariant
            i <= parts@.len(),
            v == strings_view(parts@),
            out@ == join_with(v.take(i as int), sep),
        decreases parts.len() - i,
    {
        proof {
            assert(v.take(i + 1).drop_last() =~= v.take(i as int));
        }
        if i > 0 {
            let sep_text = char_text(sep);
            out.append(sep_text.as_str());
        }
        out.append(parts[i].as_str());
        proof {
            if i == 0 {
                assert(out@ =~= v.take(1)[0]);
            } else {
                assert(out@ =~= join_with(v.take(i as int), sep).push(sep) + v.take(i + 1).last());
            }
        }
        i = i + 1;
    }
    proof {
        assert(v.take(parts@.len() as int) =~= v);
    }
    out
}

/// Relies on `String::from` for a `char`: a string of that one character.
#[verifier::external_body]
pub(crate) fn char_text(c: char) -> (r: String)
    ensures
        r@ == seq![c],
{
    String::from(c)
}

/// Two sequences of strings with the same contents.
pub fn same_strings(a: &Vec<String>, b: &Vec<String>) -> (r: bool)
    ensures
        r == (strings_view(a@) == strings_view(b@)),
{
    if a.len() != b.len() {
        proof {
            assert(strings_view(a@).len() != strings_view(b@).len());
        }
        return false;
    }
    let mut i: usize = 0;
    while i < a.len()
        invariant
            a@.len() == b@.len(),
            i <= a@.len(),
            forall|j: int| 0 <= j < i ==> a@[j]@ == b@[j]@,
        decreases a.len() - i,
    {
        if a[i] != b[i] {
            proof {
                assert(strings_view(a@)[i as int] != strings_view(b@)[i as int]);
            }
            return false;
        }
        i = i + 1;
    }
    proof {
        assert(strings_view(a@) =~= strings_view(b@));
    }
    true
}

/// A copy of each string.
pub fn copy_strings(a: &Vec<String>) -> (r: Vec<String>)
    ensures
        r@ == a@,
{
    let mut out: Vec<String> = Vec::new();
    let mut i: usize = 0;
    while i < a.len()
        invariant
            i <= a@.len(),
            out@ == a@.take(i as int),
        decreases a.len() - i,
    {
        out.push(a[i].clone());
        proof {
            assert(out@ =~= a@.take(i + 1));
        }
        i = i + 1;
    }
    proof {
        assert(a@.take(a@.len() as int) =~= a@);
    }
    out
}

/// A hierarchical scope path; the root scope is the empty path.
#[derive(Clone, Debug)]
pub struct ScopeRef {
    pub strs: Vec<String>,
}

impl View for ScopeRef {
    type V = Seq<Seq<char>>;

    open spec fn view(&self) -> Seq<Seq<char>> {
        strings_view(self.strs@)
    }
}

impl PartialEq for ScopeRef {
    fn eq(&self, other: &ScopeRef) -> (r: bool) {
        same_strings(&self.strs, &other.strs)
    }
}

impl vstd::std_specs::cmp::PartialEqSpecImpl for ScopeRef {
    open spec fn obeys_eq_spec() -> bool {
        true
    }

    open spec fn eq_spec(&self, other: &ScopeRef) -> bool {
        self@ == other@
    }
}

/// Whether `c` lies directly below `p`: one segment longer, with `p` as its prefix.
pub open spec fn is_child(c: Seq<Seq<char>>, p: Seq<Seq<char>>) -> bool {
    c.len() == p.len() + 1 && c.take(p.len() as int) == p
}

/// The scopes of `scopes` that lie directly below `p`, in their order.
pub open spec fn children_of(scopes: Seq<Seq<Seq<char>>>, p: Seq<Seq<char>>) -> Seq<
    Seq<Seq<char>>,
> {
    scopes.filter(|c: Seq<Seq<char>>| is_child(c, p))
}

/// The paths of a sequence of scopes.
pub open spec fn scopes_view(v: Seq<ScopeRef>) -> Seq<Seq<Seq<char>>> {
    v.map_values(|s: ScopeRef| s@)
}

impl ScopeRef {
    /// The root scope.
    pub fn root() -> (r: ScopeRef)
        ensures
            r@ == Seq::<Seq<char>>::empty(),
    {
        let r = ScopeRef { strs: Vec::new() };
        proof {
            assert(r@ =~= Seq::<Seq<char>>::empty());
        }
        r
    }

    pub fn from_strs(strs: &Vec<String>) -> (r: ScopeRef)
        ensures
            r@ == strings_view(strs@),
    {
        ScopeRef { strs: copy_strings(strs) }
    }

    pub fn strs(&self) -> (r: &Vec<String>)
        ensures
            strings_view(r@) == self@,
    {
        &self.strs
    }

    /// A copy of this scope.
    pub fn copy(&self) -> (r: ScopeRef)
        ensures
            r@ == self@,
    {
        ScopeRef { strs: copy_strings(&self.strs) }
    }

    /// The scope named by `name` on the wire: its segments joined by the separator.
    pub fn from_cxxrtl_name(name: &str) -> (r: ScopeRef)
        ensures
            r@ == split_on(name@, SEPARATOR),
    {
        ScopeRef { strs: split_words(name, SEPARATOR) }
    }

    /// This scope's name on the wire.
    pub fn cxxrtl_repr(&self) -> (r: String)
        ensures
            r@ == join_with(self@, SEPARATOR),
    {
        join_words(&self.strs, SEPARATOR)
    }

    /// Whether `self` lies directly below `parent`.
    pub fn is_child_of(&self, parent: &ScopeRef) -> (r: bool)
        ensures
            r == is_child(self@, parent@),
    {
        let n = parent.strs.len();
        if self.strs.len() == 0 || self.strs.len() - 1 != n {
            return false;
        }
        let mut i: usize = 0;
        while i < n
            invariant
                n == parent.strs@.len(),
                self.strs@.len() == n + 1,
                i <= n,
                forall|j: int| 0 <= j < i ==> self.strs@[j]@ == parent.strs@[j]@,
            decreases n - i,
        {
            if self.strs[i] != parent.strs[i] {
                proof {
                    assert(self@.take(n as int)[i as int] != parent@[i as int]);
                }
                return false;
            }
            i = i + 1;
        }
        proof {
            assert(self@.take(n as int) =~= parent@);
        }
        true
    }
}

/// The scopes of `scopes` that lie directly below `parent`, in the order of `scopes`.
pub fn child_scopes_of(scopes: &Vec<ScopeRef>, parent: &ScopeRef) -> (r: Vec<ScopeRef>)
    ensures
        scopes_view(r@) == children_of(scopes_view(scopes@), parent@),
        crate::state::distinct(scopes_view(scopes@)) ==> crate::state::distinct(scopes_view(r@)),
{
    let mut out: Vec<ScopeRef> = Vec::new();
    let mut i: usize = 0;
    let ghost all = scopes_view(scopes@);
    let ghost pred = |c: Seq<Seq<char>>| is_child(c, parent@);
    proof {
        reveal(Seq::filter);
        assert(all.take(0).filter(pred) =~= Seq::<Seq<Seq<char>>>::empty());
        assert(scopes_view(out@) =~= Seq::<Seq<Seq<char>>>::empty());
    }
    while i < scopes.len()
        invariant
            i <= scopes@.len(),
            all == scopes_view(scopes@),
            pred == (|c: Seq<Seq<char>>| is_child(c, parent@)),
            scopes_view(out@) == all.take(i as int).filter(pred),
            crate::state::distinct(all) ==> crate::state::distinct(scopes_view(out@)),
            forall|j: int|
                0 <= j < out@.len() ==> exists|k: int| 0 <= k < i && all[k] == #[trigger] out@[j]@,
        decreases scopes.len() - i,
    {
        proof {
            reveal(Seq::filter);
            assert(all.take(i + 1).drop_last() =~= all.take(i as int));
            assert(all.take(i + 1).last() == scopes@[i as int]@);
        }
        let ghost old_out = out@;
        if scopes[i].is_child_of(parent) {
            let c = scopes[i].copy();
            proof {
                assert(scopes_view(out@.push(c)) =~= scopes_view(out@).push(c@));
                assert(c@ == all[i as int]);
                if crate::state::distinct(all) {
                    assert forall|j: int| 0 <= j < out@.len() implies scopes_view(out@)[j] != c@ by {
                        assert(scopes_view(out@)[j] == out@[j]@);
                        let k = choose|k: int| 0 <= k < i && all[k] == out@[j]@;
                    }
                    assert(!scopes_view(out@).contains(c@));
                    crate::state::lemma_push_distinct(scopes_view(out@), c@);
                }
            }
            out.push(c);
            proof {
                assert forall|j: int| 0 <= j < out@.len() implies exists|k: int|
                    0 <= k < i + 1 && all[k] == #[trigger] out@[j]@ by {
                    if j == out@.len() - 1 {
                        assert(all[i as int] == out@[j]@);
                    } else {
                        let k = choose|k: int| 0 <= k < i && all[k] == old_out[j]@;
                        assert(out@[j] == old_out[j]);
                    }
                }
            }
        }
        i = i + 1;
    }
    proof {
        assert(all.take(scopes@.len() as int) =~= all);
    }
    out
}

/// A single signal: a scope path and a leaf name.
#[derive(Clone, Debug)]
pub struct VariableRef {
    pub path: ScopeRef,
    pub name: String,
}

impl View for VariableRef {
    type V = (Seq<Seq<char>>, Seq<char>);

    open spec fn view(&self) -> (Seq<Seq<char>>, Seq<char>) {
        (self.path@, self.name@)
    }
}

impl PartialEq for VariableRef {
    fn eq(&self, other: &VariableRef) -> (r: bool) {
        self.name == other.name && self.path == other.path
    }
}

impl vstd::std_specs::cmp::PartialEqSpecImpl for VariableRef {
    open spec fn obeys_eq_spec() -> bool {
        true
    }

    open spec fn eq_spec(&self, other: &VariableRef) -> bool {
        self@ == other@
    }
}

/// The variable that an item name on the wire denotes: every piece but the last is the
/// scope path, the last is the name.
pub open spec fn var_of_key(k: Seq<char>) -> (Seq<Seq<char>>, Seq<char>) {
    let p = split_on(k, SEPARATOR);
    (p.drop_last(), p.last())
}

/// The name of a variable on the wire.
pub open spec fn key_of_var(v: (Seq<Seq<char>>, Seq<char>)) -> Seq<char> {
    join_with(v.0.push(v.1), SEPARATOR)
}

impl VariableRef {
    pub fn new(path: ScopeRef, name: String) -> (r: VariableRef)
        ensures
            r@ == (path@, name@),
    {
        VariableRef { path, name }
    }

    /// A copy of this variable reference.
    pub fn copy(&self) -> (r: VariableRef)
        ensures
            r@ == self@,
    {
        VariableRef { path: self.path.copy(), name: self.name.clone() }
    }

    /// The variable that an item name on the wire denotes.
    pub fn from_cxxrtl_name(key: &str) -> (r: VariableRef)
        ensures
            r@ == var_of_key(key@),
    {
        let mut parts = split_words(key, SEPARATOR);
        proof {
            lemma_split_nonempty(key@, SEPARATOR);
        }
        let ghost before = parts@;
        let name = parts.pop().unwrap();
        proof {
            assert(strings_view(parts@) =~= strings_view(before).drop_last());
        }
        VariableRef { path: ScopeRef { strs: parts }, name }
    }

    /// This variable's name on the wire.
    pub fn cxxrtl_repr(&self) -> (r: String)
        ensures
            r@ == key_of_var(self@),
    {
        let mut all = copy_strings(&self.path.strs);
        all.push(self.name.clone());
        proof {
            assert(strings_view(all@) =~= self.path@.push(self.name@));
        }
        join_words(&all, SEPARATOR)
    }
}

} // verus!
