//! Resolution: from a table of segments to a table of final values.
use super::table::{
    find_entry, has_name, lookup_name, name_pos, names_distinct, segment_views, Segment,
    SegmentView, SymbolTable,
};
use crate::text::str_eq;
use vstd::prelude::*;

verus! {

/// Error returned when resolving a name's value fails.
#[derive(Debug)]
pub enum ResolveError {
    /// A `${NAME}` reference points at a name with no definition.
    UndefinedReference(String),
}

/// How many entries of `t` are not on `stack`.
pub open spec fn unvisited(t: Seq<(Seq<char>, Seq<SegmentView>)>, stack: Seq<Seq<char>>) -> nat
    decreases t.len(),
{
    if t.len() == 0 {
        0
    } else {
        unvisited(t.drop_last(), stack) + if stack.contains(t.last().0) {
            0nat
        } else {
            1nat
        }
    }
}

/// Putting a defined name that is not yet on the stack onto it leaves fewer
/// entries unvisited.
pub proof fn lemma_unvisited_push(
    t: Seq<(Seq<char>, Seq<SegmentView>)>,
    stack: Seq<Seq<char>>,
    n: Seq<char>,
)
    requires
        !stack.contains(n),
    ensures
        unvisited(t, stack.push(n)) <= unvisited(t, stack),
        has_name(t, n) ==> unvisited(t, stack.push(n)) < unvisited(t, stack),
    decreases t.len(),
{
    if t.len() > 0 {
        let t2 = t.drop_last();
        lemma_unvisited_push(t2, stack, n);
        assert(stack.push(n).contains(t.last().0) <==> stack.contains(t.last().0) || t.last().0 == n) by {
            if stack.push(n).contains(t.last().0) {
                let k = choose|k: int| 0 <= k < stack.push(n).len() && stack.push(n)[k] == t.last().0;
                if k < stack.len() {
                    assert(stack[k] == t.last().0);
                }
            }
            if stack.contains(t.last().0) {
                let k = choose|k: int| 0 <= k < stack.len() && stack[k] == t.last().0;
                assert(stack.push(n)[k] == t.last().0);
            }
            if t.last().0 == n {
                assert(stack.push(n)[stack.len() as int] == n);
            }
        }
        if has_name(t, n) && t.last().0 != n {
            let q = name_pos(t, n);
            assert(t[q].0 == n);
            assert(q < t.len() - 1);
            assert(t2[q].0 == n);
        }
    }
}

/// The outcome of resolving `name` while the names on `stack` are being
/// resolved: `Some(Ok(text))`, `Some(Err(missing))` for the first reference
/// to an undefined name, or `None` when the resolution comes back to a name
/// on the stack and so would never end.
pub open spec fn resolve_name(
    t: Seq<(Seq<char>, Seq<SegmentView>)>,
    name: Seq<char>,
    stack: Seq<Seq<char>>,
) -> Option<Result<Seq<char>, Seq<char>>>
    decreases unvisited(t, stack), 0nat, 0nat,
{
    match lookup_name(t, name) {
        None => Some(Err(name)),
        Some(segs) => if stack.contains(name) {
            None
        } else {
            proof {
                lemma_unvisited_push(t, stack, name);
            }
            resolve_segments(t, segs, stack.push(name))
        },
    }
}

/// The outcome of resolving a value: literal segments as they are, each
/// reference replaced by its resolved value, left to right; the first
/// failing or endless reference decides.
pub open spec fn resolve_segments(
    t: Seq<(Seq<char>, Seq<SegmentView>)>,
    segs: Seq<SegmentView>,
    stack: Seq<Seq<char>>,
) -> Option<Result<Seq<char>, Seq<char>>>
    decreases unvisited(t, stack), 1nat, segs.len(),
{
    if segs.len() == 0 {
        Some(Ok(seq![]))
    } else {
        let first = match segs[0] {
            SegmentView::Text(x) => Some(Ok(x)),
            SegmentView::Ref(r) => resolve_name(t, r, stack),
        };
        match first {
            Some(Ok(v)) => prefix_outcome(v, resolve_segments(t, segs.drop_first(), stack)),
            other => other,
        }
    }
}

/// `r` with `v` in front of its text; other outcomes stay as they are.
pub open spec fn prefix_outcome(v: Seq<char>, r: Option<Result<Seq<char>, Seq<char>>>) -> Option<
    Result<Seq<char>, Seq<char>>,
> {
    match r {
        Some(Ok(w)) => Some(Ok(v + w)),
        other => other,
    }
}

/// What an executable resolution outcome stands for.
pub open spec fn outcome_view(r: Option<Result<String, ResolveError>>) -> Option<Result<Seq<char>, Seq<char>>> {
    match r {
        Some(Ok(s)) => Some(Ok(s@)),
        Some(Err(ResolveError::UndefinedReference(n))) => Some(Err(n@)),
        None => None,
    }
}

/// The views of a sequence of string slices.
pub open spec fn str_views(ss: Seq<&str>) -> Seq<Seq<char>> {
    ss.map_values(|x: &str| x@)
}

/// Whether `name` is on `stack`.
fn stack_contains(stack: &Vec<&str>, name: &str) -> (b: bool)
    ensures
        b == str_views(stack@).contains(name@),
{
    let ghost sv = str_views(stack@);
    let mut i: usize = 0;
    while i < stack.len()
        invariant
            i <= stack@.len(),
            sv == str_views(stack@),
            forall|j: int| 0 <= j < i ==> sv[j] != name@,
        decreases stack@.len() - i,
    {
        if str_eq(stack[i], name) {
            assert(sv[i as int] == name@);
            return true;
        }
        i = i + 1;
    }
    proof {
        if sv.contains(name@) {
            let k = choose|k: int| 0 <= k < sv.len() && sv[k] == name@;
            assert(sv[k] != name@);
        }
    }
    false
}

/// Resolves `name`'s value: literal segments are copied as-is, `Ref`
/// segments are resolved recursively and their result substituted in.
/// `stack` holds the names whose resolution is under way; coming back to
/// one of them gives `None`.
fn resolve<'a>(table: &SymbolTable<'a>, name: &'a str, stack: &mut Vec<&'a str>) -> (r: Option<
    Result<String, ResolveError>,
>)
    ensures
        final(stack)@ == old(stack)@,
        outcome_view(r) == resolve_name(table@, name@, str_views(old(stack)@)),
    decreases unvisited(table@, str_views(old(stack)@)), 0nat, 0nat,
{
    let ghost sv = str_views(stack@);
    match table.get(name) {
        Some(segs) => {
            if stack_contains(stack, name) {
                return None;
            }
            proof {
                lemma_unvisited_push(table@, sv, name@);
                assert(has_name(table@, name@));
            }
            stack.push(name);
            proof {
                assert(str_views(stack@) =~= sv.push(name@));
            }
            let r = resolve_segments_exec(table, segs, stack);
            stack.pop();
            r
        },
        None => Some(Err(ResolveError::UndefinedReference(name.to_owned()))),
    }
}

/// Resolves the segments `segs` of a value (see [`resolve_segments`]).
fn resolve_segments_exec<'a>(
    table: &SymbolTable<'a>,
    segs: &Vec<Segment<'a>>,
    stack: &mut Vec<&'a str>,
) -> (r: Option<Result<String, ResolveError>>)
    ensures
        final(stack)@ == old(stack)@,
        outcome_view(r) == resolve_segments(table@, segment_views(segs@), str_views(old(stack)@)),
    decreases unvisited(table@, str_views(old(stack)@)), 1nat, 0nat,
{
    let ghost sv = str_views(stack@);
    let ghost all = segment_views(segs@);
    let mut result = String::new();
    let mut j: usize = 0;
    proof {
        assert(all.skip(0) =~= all);
        match resolve_segments(table@, all, sv) {
            Some(Ok(w)) => {
                assert(result@ + w =~= w);
            },
            _ => {},
        }
    }
    while j < segs.len()
        invariant
            j <= segs@.len(),
            stack@ == old(stack)@,
            sv == str_views(stack@),
            all == segment_views(segs@),
            resolve_segments(table@, all, sv) == prefix_outcome(
                result@,
                resolve_segments(table@, all.skip(j as int), sv),
            ),
        decreases segs@.len() - j,
    {
        let ghost rest = all.skip(j as int);
        proof {
            assert(rest[0] == segs@[j as int]@);
            assert(rest.drop_first() =~= all.skip(j + 1));
        }
        let ghost before = result@;
        let ghost tail = resolve_segments(table@, all.skip(j + 1), sv);
        let ghost mut added: Seq<char> = Seq::empty();
        match segs[j] {
            Segment::Text(text) => {
                result.append(text);
                proof {
                    added = text@;
                }
                assert(resolve_segments(table@, rest, sv) == prefix_outcome(text@, tail));
            },
            Segment::Ref(ref_name) => {
                match resolve(table, ref_name, stack) {
                    Some(Ok(value)) => {
                        result.append(value.as_str());
                        proof {
                            added = value@;
                        }
                        assert(resolve_segments(table@, rest, sv) == prefix_outcome(value@, tail));
                    },
                    Some(Err(e)) => {
                        return Some(Err(e));
                    },
                    None => {
                        return None;
                    },
                }
            },
        }
        proof {
            assert(result@ == before + added);
            assert(resolve_segments(table@, rest, sv) == prefix_outcome(added, tail));
            match tail {
                Some(Ok(w)) => {
                    assert(before + (added + w) =~= result@ + w);
                },
                _ => {},
            }
        }
        j = j + 1;
    }
    proof {
        assert(all.skip(j as int) =~= Seq::<SegmentView>::empty());
        assert(result@ + Seq::<char>::empty() =~= result@);
    }
    Some(Ok(result))
}


/// The outcome of resolving the first `k` names of `t`, in order: their
/// values, or the outcome of the first name that fails or never ends.
pub open spec fn resolve_prefix(t: Seq<(Seq<char>, Seq<SegmentView>)>, k: nat) -> Option<
    Result<Seq<(Seq<char>, Seq<char>)>, Seq<char>>,
>
    decreases k,
{
    if k == 0 {
        Some(Ok(seq![]))
    } else {
        match resolve_prefix(t, (k - 1) as nat) {
            Some(Ok(done)) => match resolve_name(t, t[k - 1].0, seq![]) {
                Some(Ok(v)) => Some(Ok(done.push((t[k - 1].0, v)))),
                Some(Err(e)) => Some(Err(e)),
                None => None,
            },
            other => other,
        }
    }
}

/// Once resolving a prefix of the names fails or never ends, so does every
/// longer prefix, with the same outcome.
proof fn lemma_prefix_stuck(t: Seq<(Seq<char>, Seq<SegmentView>)>, k: nat, m: nat)
    requires
        k <= m,
        !(resolve_prefix(t, k) matches Some(Ok(_))),
    ensures
        resolve_prefix(t, m) == resolve_prefix(t, k),
    decreases m - k,
{
    if k < m {
        lemma_prefix_stuck(t, k, (m - 1) as nat);
    }
}

/// The outcome of resolving every name of `t`: each name with its value,
/// in table order; or the first undefined reference met; or `None` when
/// some resolution comes back to a name under way and so never ends.
pub open spec fn resolve_all_spec(t: Seq<(Seq<char>, Seq<SegmentView>)>) -> Option<
    Result<Seq<(Seq<char>, Seq<char>)>, Seq<char>>,
> {
    resolve_prefix(t, t.len())
}

/// Names with their resolved values, in the order of the symbol table.
pub struct ResolvedTable<'src> {
    entries: Vec<(&'src str, String)>,
}

/// The view of a list of resolved entries.
pub open spec fn resolved_view<'src>(es: Seq<(&'src str, String)>) -> Seq<(Seq<char>, Seq<char>)> {
    es.map_values(|e: (&'src str, String)| (e.0@, e.1@))
}

impl<'src> View for ResolvedTable<'src> {
    type V = Seq<(Seq<char>, Seq<char>)>;

    closed spec fn view(&self) -> Self::V {
        resolved_view(self.entries@)
    }
}

/// What an executable outcome of resolving a whole table stands for.
pub open spec fn all_outcome_view<'src>(r: Option<Result<ResolvedTable<'src>, ResolveError>>) -> Option<
    Result<Seq<(Seq<char>, Seq<char>)>, Seq<char>>,
> {
    match r {
        Some(Ok(rt)) => Some(Ok(rt@)),
        Some(Err(ResolveError::UndefinedReference(n))) => Some(Err(n@)),
        None => None,
    }
}

impl<'src> ResolvedTable<'src> {
    #[verifier::type_invariant]
    spec fn distinct(&self) -> bool {
        names_distinct(self@)
    }

    /// The number of names.
    pub fn len(&self) -> (n: usize)
        ensures
            n == self@.len(),
    {
        self.entries.len()
    }

    /// The names, in table order.
    pub fn names(&self) -> (ns: Vec<&'src str>)
        ensures
            str_views(ns@) == self@.map_values(|e: (Seq<char>, Seq<char>)| e.0),
    {
        let mut ns: Vec<&'src str> = Vec::new();
        for i in 0..self.entries.len()
            invariant
                str_views(ns@) == self@.take(i as int).map_values(|e: (Seq<char>, Seq<char>)| e.0),
        {
            let ghost before = ns@;
            ns.push(self.entries[i].0);
            proof {
                assert(self@[i as int].0 == self.entries@[i as int].0@);
                assert(str_views(ns@) =~= str_views(before).push(self.entries@[i as int].0@));
                assert(self@.take(i + 1) =~= self@.take(i as int).push(self@[i as int]));
                assert(str_views(ns@) =~= self@.take(i + 1).map_values(
                    |e: (Seq<char>, Seq<char>)| e.0,
                ));
            }
        }
        proof {
            assert(self@.take(self.entries@.len() as int) =~= self@);
        }
        ns
    }

    /// The resolved value of `name`, if `name` is defined.
    pub fn get(&self, name: &str) -> (r: Option<&String>)
        ensures
            match r {
                Some(v) => lookup_name(self@, name@) == Some(v@),
                None => lookup_name(self@, name@) is None,
            },
    {
        proof {
            use_type_invariant(self);
        }
        match find_entry(&self.entries, name) {
            Some(i) => {
                proof {
                    let t = self@;
                    assert(t[i as int].0 == name@);
                    let q = name_pos(t, name@);
                    assert(t[q].0 == name@);
                }
                Some(&self.entries[i].1)
            },
            None => {
                proof {
                    let t = self@;
                    if has_name(t, name@) {
                        let q = name_pos(t, name@);
                        assert(t[q].0 == name@);
                        assert(self.entries@[q].0@ != name@);
                    }
                }
                None
            },
        }
    }
}

/// Resolves every name in `table` (see [`resolve_all_spec`]); `None` when a
/// resolution would come back to a name under way and never end.
pub fn try_resolve_all<'a>(table: &SymbolTable<'a>) -> (r: Option<Result<ResolvedTable<'a>, ResolveError>>)
    ensures
        all_outcome_view(r) == resolve_all_spec(table@),
{
    let ghost t = table@;
    let names = table.names();
    let mut result: Vec<(&'a str, String)> = Vec::new();
    let mut stack: Vec<&'a str> = Vec::new();
    let mut i: usize = 0;
    proof {
        assert(resolved_view(result@) =~= Seq::<(Seq<char>, Seq<char>)>::empty());
        assert(str_views(names@) == t.map_values(|e: (Seq<char>, Seq<SegmentView>)| e.0));
        assert(str_views(names@).len() == names@.len());
        assert(names@.len() == t.len());
    }
    while i < names.len()
        invariant
            t == table@,
            t.len() == names@.len(),
            str_views(names@) == t.map_values(|e: (Seq<char>, Seq<SegmentView>)| e.0),
            names_distinct(t),
            i <= t.len(),
            stack@ == Seq::<&'a str>::empty(),
            resolve_prefix(t, i as nat) == Some(
                Ok::<Seq<(Seq<char>, Seq<char>)>, Seq<char>>(resolved_view(result@)),
            ),
            resolved_view(result@).len() == i,
            forall|j: int| 0 <= j < i ==> (#[trigger] resolved_view(result@)[j]).0 == t[j].0,
        decreases t.len() - i,
    {
        let key = names[i];
        proof {
            assert(str_views(stack@) =~= Seq::<Seq<char>>::empty());
            assert(str_views(names@)[i as int] == key@);
            assert(key@ == t[i as int].0);
        }
        let ghost done = resolved_view(result@);
        match resolve(table, key, &mut stack) {
            Some(Ok(value)) => {
                result.push((key, value));
                proof {
                    assert(resolved_view(result@) =~= done.push((key@, value@)));
                }
            },
            Some(Err(e)) => {
                proof {
                    lemma_prefix_stuck(t, (i + 1) as nat, t.len());
                }
                return Some(Err(e));
            },
            None => {
                proof {
                    lemma_prefix_stuck(t, (i + 1) as nat, t.len());
                }
                return None;
            },
        }
        i = i + 1;
    }
    proof {
        let rv = resolved_view(result@);
        assert forall|a: int, b: int| 0 <= a < rv.len() && 0 <= b < rv.len() && a != b implies rv[a].0
            != rv[b].0 by {
            assert(rv[a].0 == t[a].0 && rv[b].0 == t[b].0);
        }
    }
    Some(Ok(ResolvedTable { entries: result }))
}

/// Resolves every name in `table` to its final value, substituting all
/// `${OTHER_NAME}` references (including chained/nested ones); the first
/// undefined reference met, in table order, is the error. A resolution that
/// comes back to a name under way would never end, so such tables are left
/// out (see [`try_resolve_all`], which reports them).
pub fn resolve_all<'a>(table: &SymbolTable<'a>) -> (r: Result<ResolvedTable<'a>, ResolveError>)
    requires
        resolve_all_spec(table@) is Some,
    ensures
        all_outcome_view(Some(r)) == resolve_all_spec(table@),
{
    match try_resolve_all(table) {
        Some(r) => r,
        None => vstd::pervasive::unreached(),
    }
}

impl ResolveError {
    /// The message that describes the error.
    pub fn to_string(&self) -> (msg: String)
        ensures
            match self {
                ResolveError::UndefinedReference(name) => msg@ == "reference to undefined name '"@
                    + name@ + "'"@,
            },
    {
        match self {
            ResolveError::UndefinedReference(name) => {
                let mut msg = String::from_str("reference to undefined name '");
                msg.append(name.as_str());
                msg.append("'");
                msg
            },
        }
    }
}


/// Every name on `small` is on `big`.
pub open spec fn within(small: Seq<Seq<char>>, big: Seq<Seq<char>>) -> bool {
    forall|x: Seq<char>| small.contains(x) ==> big.contains(x)
}

proof fn lemma_within_push(small: Seq<Seq<char>>, big: Seq<Seq<char>>, n: Seq<char>)
    requires
        within(small, big),
    ensures
        within(small.push(n), big.push(n)),
{
    assert forall|x: Seq<char>| small.push(n).contains(x) implies big.push(n).contains(x) by {
        let k = choose|k: int| 0 <= k < small.push(n).len() && small.push(n)[k] == x;
        if k < small.len() {
            assert(small.contains(x));
            let j = choose|j: int| 0 <= j < big.len() && big[j] == x;
            assert(big.push(n)[j] == x);
        } else {
            assert(big.push(n)[big.len() as int] == x);
        }
    }
}

/// The stack only serves to detect a resolution that never ends: a
/// resolution that ends gives the same outcome with fewer names under way.
pub proof fn lemma_resolve_name_stack(
    t: Seq<(Seq<char>, Seq<SegmentView>)>,
    n: Seq<char>,
    big: Seq<Seq<char>>,
    small: Seq<Seq<char>>,
)
    requires
        within(small, big),
        resolve_name(t, n, big) is Some,
    ensures
        resolve_name(t, n, small) == resolve_name(t, n, big),
    decreases unvisited(t, big), 0nat, 0nat,
{
    if let Some(segs) = lookup_name(t, n) {
        assert(!big.contains(n));
        assert(!small.contains(n));
        lemma_unvisited_push(t, big, n);
        assert(has_name(t, n));
        lemma_within_push(small, big, n);
        lemma_resolve_segments_stack(t, segs, big.push(n), small.push(n));
    }
}

/// [`lemma_resolve_name_stack`] for the segments of a value.
pub proof fn lemma_resolve_segments_stack(
    t: Seq<(Seq<char>, Seq<SegmentView>)>,
    segs: Seq<SegmentView>,
    big: Seq<Seq<char>>,
    small: Seq<Seq<char>>,
)
    requires
        within(small, big),
        resolve_segments(t, segs, big) is Some,
    ensures
        resolve_segments(t, segs, small) == resolve_segments(t, segs, big),
    decreases unvisited(t, big), 1nat, segs.len(),
{
    if segs.len() > 0 {
        if let SegmentView::Ref(r) = segs[0] {
            lemma_resolve_name_stack(t, r, big, small);
        }
        let first = match segs[0] {
            SegmentView::Text(x) => Some(Ok(x)),
            SegmentView::Ref(r) => resolve_name(t, r, big),
        };
        if let Some(Ok(v)) = first {
            lemma_resolve_segments_stack(t, segs.drop_first(), big, small);
        }
    }
}

/// The segments of a value with each literal kept and each reference
/// replaced by the referenced name's own resolution; the first reference
/// that fails or never ends decides.
pub open spec fn substitute(t: Seq<(Seq<char>, Seq<SegmentView>)>, segs: Seq<SegmentView>) -> Option<
    Result<Seq<char>, Seq<char>>,
>
    decreases segs.len(),
{
    if segs.len() == 0 {
        Some(Ok(seq![]))
    } else {
        let first = match segs[0] {
            SegmentView::Text(x) => Some(Ok(x)),
            SegmentView::Ref(r) => resolve_name(t, r, seq![]),
        };
        match first {
            Some(Ok(v)) => prefix_outcome(v, substitute(t, segs.drop_first())),
            other => other,
        }
    }
}

proof fn lemma_segments_substitute(
    t: Seq<(Seq<char>, Seq<SegmentView>)>,
    segs: Seq<SegmentView>,
    stack: Seq<Seq<char>>,
)
    requires
        resolve_segments(t, segs, stack) is Some,
    ensures
        resolve_segments(t, segs, stack) == substitute(t, segs),
    decreases segs.len(),
{
    if segs.len() > 0 {
        let empty = Seq::<Seq<char>>::empty();
        assert(within(empty, stack));
        if let SegmentView::Ref(r) = segs[0] {
            if resolve_name(t, r, stack) is Some {
                lemma_resolve_name_stack(t, r, stack, empty);
            }
        }
        let first = match segs[0] {
            SegmentView::Text(x) => Some(Ok(x)),
            SegmentView::Ref(r) => resolve_name(t, r, stack),
        };
        if let Some(Ok(v)) = first {
            lemma_segments_substitute(t, segs.drop_first(), stack);
        }
    }
}

/// Substitution: when resolving a defined name ends, its outcome is its
/// value with every literal kept and every `${OTHER}` replaced by the
/// resolution of `OTHER` on its own; chains of references resolve through.
pub proof fn law_resolution_substitutes(
    t: Seq<(Seq<char>, Seq<SegmentView>)>,
    n: Seq<char>,
)
    requires
        has_name(t, n),
        resolve_name(t, n, seq![]) is Some,
    ensures
        resolve_name(t, n, seq![]) == substitute(t, lookup_name(t, n)->0),
{
    let segs = lookup_name(t, n)->0;
    assert(!Seq::<Seq<char>>::empty().contains(n));
    lemma_segments_substitute(t, segs, seq![n]);
}

/// A value that holds no reference resolves to its literal pieces joined.
pub proof fn law_literal_value(t: Seq<(Seq<char>, Seq<SegmentView>)>, segs: Seq<SegmentView>)
    requires
        forall|i: int| 0 <= i < segs.len() ==> segs[i] is Text,
    ensures
        substitute(t, segs) == Some(Ok::<Seq<char>, Seq<char>>(literal_text(segs))),
    decreases segs.len(),
{
    if segs.len() > 0 {
        law_literal_value(t, segs.drop_first());
    }
}

/// The literal pieces of `segs`, joined (references count as empty).
pub open spec fn literal_text(segs: Seq<SegmentView>) -> Seq<char>
    decreases segs.len(),
{
    if segs.len() == 0 {
        seq![]
    } else {
        let x = match segs[0] {
            SegmentView::Text(x) => x,
            SegmentView::Ref(_) => seq![],
        };
        x + literal_text(segs.drop_first())
    }
}

/// Resolving a whole table keeps its names, in order, and gives each the
/// outcome of resolving it on its own.
pub proof fn law_resolve_all_each_name(t: Seq<(Seq<char>, Seq<SegmentView>)>, k: nat)
    requires
        k <= t.len(),
        resolve_prefix(t, k) matches Some(Ok(_)),
    ensures
        ({
            let r = resolve_prefix(t, k)->0->Ok_0;
            &&& r.len() == k
            &&& forall|i: int|
                0 <= i < k ==> (#[trigger] r[i]).0 == t[i].0 && resolve_name(t, t[i].0, seq![])
                    == Some(Ok::<Seq<char>, Seq<char>>(r[i].1))
        }),
    decreases k,
{
    if k > 0 {
        law_resolve_all_each_name(t, (k - 1) as nat);
    }
}

/// `rank` strictly decreases along every reference from a defined name to a
/// defined name: a witness that the references of `t` form no cycle.
pub open spec fn ranks_references(
    t: Seq<(Seq<char>, Seq<SegmentView>)>,
    rank: spec_fn(Seq<char>) -> nat,
) -> bool {
    forall|n: Seq<char>, i: int, r: Seq<char>|
        #![trigger lookup_name(t, n)->0[i], has_name(t, r)]
        has_name(t, n) && 0 <= i < lookup_name(t, n)->0.len() && lookup_name(t, n)->0[i]
            == SegmentView::Ref(r) && has_name(t, r) ==> rank(r) < rank(n)
}

proof fn lemma_ranked_name(
    t: Seq<(Seq<char>, Seq<SegmentView>)>,
    rank: spec_fn(Seq<char>) -> nat,
    n: Seq<char>,
    stack: Seq<Seq<char>>,
)
    requires
        ranks_references(t, rank),
        forall|k: int| 0 <= k < stack.len() ==> rank(#[trigger] stack[k]) > rank(n),
    ensures
        resolve_name(t, n, stack) is Some,
    decreases rank(n) + 1, 0nat, 0nat,
{
    if let Some(segs) = lookup_name(t, n) {
        assert(has_name(t, n));
        assert(!stack.contains(n)) by {
            if stack.contains(n) {
                let k = choose|k: int| 0 <= k < stack.len() && stack[k] == n;
                assert(rank(stack[k]) > rank(n));
            }
        }
        let st = stack.push(n);
        assert forall|k: int| 0 <= k < st.len() implies rank(#[trigger] st[k]) >= rank(n) by {
            if k < stack.len() {
                assert(st[k] == stack[k]);
            }
        }
        assert forall|i: int|
            0 <= i < segs.len() && #[trigger] segs[i] is Ref && has_name(t, segs[i]->Ref_0) implies rank(
            segs[i]->Ref_0,
        ) < rank(n) by {
            let r = segs[i]->Ref_0;
            assert(lookup_name(t, n)->0[i] == SegmentView::Ref(r));
        }
        lemma_ranked_segments(t, rank, segs, st, rank(n));
    }
}

proof fn lemma_ranked_segments(
    t: Seq<(Seq<char>, Seq<SegmentView>)>,
    rank: spec_fn(Seq<char>) -> nat,
    segs: Seq<SegmentView>,
    stack: Seq<Seq<char>>,
    bound: nat,
)
    requires
        ranks_references(t, rank),
        forall|i: int|
            0 <= i < segs.len() && #[trigger] segs[i] is Ref && has_name(t, segs[i]->Ref_0) ==> rank(
                segs[i]->Ref_0,
            ) < bound,
        forall|k: int| 0 <= k < stack.len() ==> rank(#[trigger] stack[k]) >= bound,
    ensures
        resolve_segments(t, segs, stack) is Some,
    decreases bound, 1nat, segs.len(),
{
    if segs.len() > 0 {
        if let SegmentView::Ref(r) = segs[0] {
            assert(segs[0] is Ref);
            if has_name(t, r) {
                lemma_ranked_name(t, rank, r, stack);
            }
        }
        let rest = segs.drop_first();
        assert forall|i: int|
            0 <= i < rest.len() && #[trigger] rest[i] is Ref && has_name(t, rest[i]->Ref_0) implies rank(
            rest[i]->Ref_0,
        ) < bound by {
            assert(rest[i] == segs[i + 1]);
        }
        lemma_ranked_segments(t, rank, rest, stack, bound);
    }
}

/// Only a real cycle keeps a resolution from ending: when the references of
/// `t` form no cycle (some rank strictly decreases along each of them),
/// resolving any name ends, with the names under way being any names ranked
/// above it; in particular every name resolves from scratch, and so does the
/// whole table. A value may reference the same name any number of times,
/// and names are compared whole.
pub proof fn law_acyclic_table_resolves(
    t: Seq<(Seq<char>, Seq<SegmentView>)>,
    rank: spec_fn(Seq<char>) -> nat,
    n: Seq<char>,
)
    requires
        ranks_references(t, rank),
    ensures
        resolve_name(t, n, seq![]) is Some,
        resolve_all_spec(t) is Some,
        forall|stack: Seq<Seq<char>>|
            (forall|k: int| 0 <= k < stack.len() ==> rank(#[trigger] stack[k]) > rank(n))
                ==> #[trigger] resolve_name(t, n, stack) is Some,
{
    lemma_ranked_name(t, rank, n, seq![]);
    assert forall|stack: Seq<Seq<char>>|
        (forall|k: int| 0 <= k < stack.len() ==> rank(#[trigger] stack[k]) > rank(n))
            implies #[trigger] resolve_name(t, n, stack) is Some by {
        lemma_ranked_name(t, rank, n, stack);
    }
    lemma_acyclic_prefix(t, rank, t.len());
}

proof fn lemma_acyclic_prefix(
    t: Seq<(Seq<char>, Seq<SegmentView>)>,
    rank: spec_fn(Seq<char>) -> nat,
    k: nat,
)
    requires
        ranks_references(t, rank),
        k <= t.len(),
    ensures
        resolve_prefix(t, k) is Some,
    decreases k,
{
    if k > 0 {
        lemma_acyclic_prefix(t, rank, (k - 1) as nat);
        lemma_ranked_name(t, rank, t[k - 1].0, seq![]);
    }
}

/// An error names a name that the table does not define: resolution fails
/// only on a reference to an undefined name.
pub proof fn law_error_names_an_undefined_name(
    t: Seq<(Seq<char>, Seq<SegmentView>)>,
    n: Seq<char>,
    stack: Seq<Seq<char>>,
)
    ensures
        resolve_name(t, n, stack) matches Some(Err(m)) ==> !has_name(t, m),
    decreases unvisited(t, stack), 0nat, 0nat,
{
    if let Some(segs) = lookup_name(t, n) {
        if !stack.contains(n) {
            lemma_unvisited_push(t, stack, n);
            assert(has_name(t, n));
            lemma_segments_error_undefined(t, segs, stack.push(n));
        }
    }
}

proof fn lemma_segments_error_undefined(
    t: Seq<(Seq<char>, Seq<SegmentView>)>,
    segs: Seq<SegmentView>,
    stack: Seq<Seq<char>>,
)
    ensures
        resolve_segments(t, segs, stack) matches Some(Err(m)) ==> !has_name(t, m),
    decreases unvisited(t, stack), 1nat, segs.len(),
{
    if segs.len() > 0 {
        if let SegmentView::Ref(r) = segs[0] {
            law_error_names_an_undefined_name(t, r, stack);
        }
        lemma_segments_error_undefined(t, segs.drop_first(), stack);
    }
}

} // verus!
