//! The binding table and the expansion of argument texts.
use vstd::prelude::*;
use vstd::string::*;

verus! {

/// The character that starts a marker.
pub open spec fn is_sentinel(c: char) -> bool {
    c == '$'
}

/// Whether `c` may appear in a binding name (ASCII letters and digits).
pub open spec fn is_name_char(c: char) -> bool {
    ('a' <= c && c <= 'z') || ('A' <= c && c <= 'Z') || ('0' <= c && c <= '9')
}

pub fn name_char(c: char) -> (r: bool)
    ensures
        r == is_name_char(c),
{
    ('a' <= c && c <= 'z') || ('A' <= c && c <= 'Z') || ('0' <= c && c <= '9')
}

/// The views of a sequence of strings.
pub open spec fn strs(v: Seq<String>) -> Seq<Seq<char>> {
    v.map_values(|s: String| s@)
}

/// End of the maximal run of non-sentinel characters that starts at `i`.
pub open spec fn lit_end(t: Seq<char>, i: nat) -> nat
    decreases t.len() - i,
{
    if i < t.len() && !is_sentinel(t[i as int]) {
        lit_end(t, i + 1)
    } else {
        i
    }
}

/// End of the maximal run of name characters that starts at `i`.
pub open spec fn name_end(t: Seq<char>, i: nat) -> nat
    decreases t.len() - i,
{
    if i < t.len() && is_name_char(t[i as int]) {
        name_end(t, i + 1)
    } else {
        i
    }
}

pub proof fn lemma_lit_end(t: Seq<char>, i: nat)
    requires
        i <= t.len(),
    ensures
        i <= lit_end(t, i) <= t.len(),
        i < t.len() && !is_sentinel(t[i as int]) ==> i < lit_end(t, i),
        forall|k: int| i <= k < lit_end(t, i) ==> !is_sentinel(#[trigger] t[k]),
        lit_end(t, i) < t.len() ==> is_sentinel(t[lit_end(t, i) as int]),
    decreases t.len() - i,
{
    if i < t.len() && !is_sentinel(t[i as int]) {
        lemma_lit_end(t, i + 1);
    }
}

pub proof fn lemma_name_end(t: Seq<char>, i: nat)
    requires
        i <= t.len(),
    ensures
        i <= name_end(t, i) <= t.len(),
        forall|k: int| i <= k < name_end(t, i) ==> is_name_char(#[trigger] t[k]),
        name_end(t, i) < t.len() ==> !is_name_char(t[name_end(t, i) as int]),
    decreases t.len() - i,
{
    if i < t.len() && is_name_char(t[i as int]) {
        lemma_name_end(t, i + 1);
    }
}

/// Cartesian concatenation: every `p` of `a` (outer, in order) followed by
/// every `x` of `v` (inner, in order) gives `p + x`.
pub open spec fn product(a: Seq<Seq<char>>, v: Seq<Seq<char>>) -> Seq<Seq<char>>
    decreases a.len(),
{
    if a.len() == 0 {
        seq![]
    } else {
        product(a.drop_last(), v) + v.map_values(|x: Seq<char>| a.last() + x)
    }
}

/// Adds one token's variants to the accumulator; `None` is the accumulator
/// before the first token.
pub open spec fn combine(acc: Option<Seq<Seq<char>>>, v: Seq<Seq<char>>) -> Option<Seq<Seq<char>>> {
    match acc {
        None => Some(v),
        Some(a) => Some(product(a, v)),
    }
}

/// Why a text could not be expanded.
pub enum ExpandFault {
    Syntax,
    Unresolved(Seq<char>),
}

/// Expansion of `t` from position `i`, with `acc` the variants of `t[..i]`.
pub open spec fn expand_from(
    t: Seq<char>,
    i: nat,
    acc: Option<Seq<Seq<char>>>,
    m: Map<Seq<char>, Seq<Seq<char>>>,
) -> Result<Seq<Seq<char>>, ExpandFault>
    decreases t.len() - i,
    via expand_from_decreases
{
    if i >= t.len() {
        match acc {
            None => Err(ExpandFault::Syntax),
            Some(a) => Ok(a),
        }
    } else if is_sentinel(t[i as int]) {
        if i + 1 < t.len() && is_sentinel(t[i + 1 as int]) {
            expand_from(t, i + 2, combine(acc, seq![seq!['$']]), m)
        } else {
            let e = name_end(t, i + 1);
            if e == i + 1 {
                Err(ExpandFault::Syntax)
            } else {
                let name = t.subrange(i + 1 as int, e as int);
                if m.contains_key(name) {
                    expand_from(t, e, combine(acc, m[name]), m)
                } else {
                    Err(ExpandFault::Unresolved(name))
                }
            }
        }
    } else {
        let e = lit_end(t, i);
        expand_from(t, e, combine(acc, seq![t.subrange(i as int, e as int)]), m)
    }
}

#[via_fn]
proof fn expand_from_decreases(
    t: Seq<char>,
    i: nat,
    acc: Option<Seq<Seq<char>>>,
    m: Map<Seq<char>, Seq<Seq<char>>>,
) {
    if i < t.len() {
        lemma_lit_end(t, i);
        lemma_name_end(t, i + 1);
    }
}

/// The variants of text `t` under the bindings `m`, scanned left to right.
pub open spec fn expand_spec(t: Seq<char>, m: Map<Seq<char>, Seq<Seq<char>>>) -> Result<
    Seq<Seq<char>>,
    ExpandFault,
> {
    expand_from(t, 0, None, m)
}

/// An error of expansion.
#[derive(Debug, PartialEq, Eq)]
pub enum ExpandError {
    /// A marker without a name or escape, or an empty text.
    Syntax,
    /// A marker names a binding that is not in the table.
    Unresolved(String),
}

impl ExpandError {
    pub open spec fn view(&self) -> ExpandFault {
        match self {
            ExpandError::Syntax => ExpandFault::Syntax,
            ExpandError::Unresolved(n) => ExpandFault::Unresolved(n@),
        }
    }
}

pub open spec fn expand_result(r: Result<Vec<String>, ExpandError>) -> Result<
    Seq<Seq<char>>,
    ExpandFault,
> {
    match r {
        Ok(v) => Ok(strs(v@)),
        Err(e) => Err(e.view()),
    }
}

/// The value of `name` in a list of writes: the last write of that name wins.
pub open spec fn lookup(e: Seq<(String, Vec<String>)>, name: Seq<char>) -> Option<Seq<Seq<char>>>
    decreases e.len(),
{
    if e.len() == 0 {
        None
    } else if e.last().0@ == name {
        Some(strs(e.last().1@))
    } else {
        lookup(e.drop_last(), name)
    }
}

/// The binding table: names mapped to ordered lists of values.
pub struct Env {
    binds: Vec<(String, Vec<String>)>,
}

impl View for Env {
    type V = Map<Seq<char>, Seq<Seq<char>>>;

    closed spec fn view(&self) -> Map<Seq<char>, Seq<Seq<char>>> {
        Map::new(
            |k: Seq<char>| lookup(self.binds@, k) is Some,
            |k: Seq<char>| lookup(self.binds@, k)->0,
        )
    }
}

/// A copy of each string of `v`, in order.
pub(crate) fn copy_strings(v: &Vec<String>) -> (r: Vec<String>)
    ensures
        strs(r@) == strs(v@),
{
    let mut r: Vec<String> = Vec::new();
    let mut k: usize = 0;
    while k < v.len()
        invariant
            k <= v.len(),
            strs(r@) == strs(v@).take(k as int),
        decreases v.len() - k,
    {
        let c = v[k].clone();
        assert(c@ == v@[k as int]@);
        let ghost prev = r@;
        r.push(c);
        assert(r@ == prev.push(c));
        assert(strs(r@) =~= strs(prev).push(c@));
        k = k + 1;
        assert(strs(r@) =~= strs(v@).take(k as int));
    }
    assert(strs(v@).take(v.len() as int) =~= strs(v@));
    r
}

/// The cartesian concatenation of `a` and `v`, `a` varying slower.
fn product_of(a: &Vec<String>, v: &Vec<String>) -> (r: Vec<String>)
    ensures
        strs(r@) == product(strs(a@), strs(v@)),
{
    let ghost vs = strs(v@);
    let mut r: Vec<String> = Vec::new();
    let mut i: usize = 0;
    while i < a.len()
        invariant
            i <= a.len(),
            vs == strs(v@),
            strs(r@) == product(strs(a@).take(i as int), vs),
        decreases a.len() - i,
    {
        let ghost before = strs(r@);
        let mut j: usize = 0;
        while j < v.len()
            invariant
                i < a.len(),
                j <= v.len(),
                vs == strs(v@),
                strs(r@) == before + vs.take(j as int).map_values(
                    |x: Seq<char>| a@[i as int]@ + x,
                ),
            decreases v.len() - j,
        {
            let p = a[i].clone();
            assert(p@ == a@[i as int]@);
            let s = p.concat(v[j].as_str());
            assert(s@ == a@[i as int]@ + vs[j as int]);
            let ghost prev = r@;
            r.push(s);
            assert(strs(r@) =~= strs(prev).push(s@));
            j = j + 1;
            assert(strs(r@) =~= before + vs.take(j as int).map_values(
                |x: Seq<char>| a@[i as int]@ + x,
            ));
        }
        let ghost ta = strs(a@).take(i + 1);
        assert(ta.drop_last() =~= strs(a@).take(i as int));
        assert(vs.take(j as int) =~= vs);
        i = i + 1;
    }
    assert(strs(a@).take(a.len() as int) =~= strs(a@));
    r
}

impl Env {
    /// An empty table.
    pub fn new() -> (r: Env)
        ensures
            r@ == Map::<Seq<char>, Seq<Seq<char>>>::empty(),
    {
        let r = Env { binds: Vec::new() };
        assert(r@ =~= Map::<Seq<char>, Seq<Seq<char>>>::empty());
        r
    }

    /// Binds `name` to `values`, replacing any earlier binding of it.
    pub fn insert(&mut self, name: String, values: Vec<String>)
        ensures
            final(self)@ == old(self)@.insert(name@, strs(values@)),
    {
        let ghost n = name@;
        let ghost vs = strs(values@);
        self.binds.push((name, values));
        assert(self.binds@.drop_last() =~= old(self).binds@);
        assert(self@ =~= old(self)@.insert(n, vs));
    }

    /// The values bound to `name`, if any.
    pub fn get(&self, name: &String) -> (r: Option<&Vec<String>>)
        ensures
            self@.contains_key(name@) <==> r is Some,
            r is Some ==> self@[name@] == strs(r->0@),
    {
        let mut k: usize = self.binds.len();
        assert(self.binds@.take(k as int) =~= self.binds@);
        while k > 0
            invariant
                k <= self.binds@.len(),
                lookup(self.binds@, name@) == lookup(self.binds@.take(k as int), name@),
            decreases k,
        {
            let ghost tk = self.binds@.take(k as int);
            assert(tk.drop_last() =~= self.binds@.take(k - 1));
            if self.binds[k - 1].0 == *name {
                return Some(&self.binds[k - 1].1);
            }
            k = k - 1;
        }
        None
    }

    /// Expands `text` against this table: the variants of its literal runs
    /// and markers, combined left to right by cartesian concatenation.
    pub fn eval(&self, text: &str) -> (r: Result<Vec<String>, ExpandError>)
        ensures
            expand_result(r) == expand_spec(text@, self@),
    {
        let ghost t = text@;
        let n = text.unicode_len();
        let mut acc: Option<Vec<String>> = None;
        let mut i: usize = 0;
        while i < n
            invariant
                n == t.len(),
                t == text@,
                i <= n,
                expand_from(t, i as nat, acc_view(&acc), self@) == expand_spec(t, self@),
            decreases n - i,
        {
            let c = text.get_char(i);
            let mut v: Vec<String> = Vec::new();
            if c == '$' {
                if i + 1 < n && text.get_char(i + 1) == '$' {
                    let d = String::from_str("$");
                    proof {
                        reveal_strlit("$");
                    }
                    assert(d@ =~= seq!['$']);
                    v.push(d);
                    assert(strs(v@) =~= seq![seq!['$']]);
                    i = i + 2;
                } else {
                    let mut e: usize = i + 1;
                    proof {
                        lemma_name_end(t, (i + 1) as nat);
                    }
                    while e < n && name_char(text.get_char(e))
                        invariant
                            n == t.len(),
                            t == text@,
                            i + 1 <= e <= n,
                            name_end(t, (i + 1) as nat) == name_end(t, e as nat),
                        decreases n - e,
                    {
                        e = e + 1;
                    }
                    if e == i + 1 {
                        return Err(ExpandError::Syntax);
                    }
                    let name = String::from_str(text.substring_char(i + 1, e));
                    match self.get(&name) {
                        None => {
                            return Err(ExpandError::Unresolved(name));
                        },
                        Some(vals) => {
                            v = copy_strings(vals);
                        },
                    }
                    i = e;
                }
            } else {
                let mut e: usize = i;
                proof {
                    lemma_lit_end(t, i as nat);
                }
                while e < n && text.get_char(e) != '$'
                    invariant
                        n == t.len(),
                        t == text@,
                        i <= e <= n,
                        lit_end(t, i as nat) == lit_end(t, e as nat),
                    decreases n - e,
                {
                    e = e + 1;
                }
                v.push(String::from_str(text.substring_char(i, e)));
                assert(strs(v@) =~= seq![t.subrange(i as int, e as int)]);
                i = e;
            }
            acc = match acc {
                None => Some(v),
                Some(a) => Some(product_of(&a, &v)),
            };
        }
        match acc {
            None => Err(ExpandError::Syntax),
            Some(a) => Ok(a),
        }
    }
}

pub open spec fn acc_view(acc: &Option<Vec<String>>) -> Option<Seq<Seq<char>>> {
    match acc {
        None => None,
        Some(a) => Some(strs(a@)),
    }
}

} // verus!
