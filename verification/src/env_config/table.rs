//! Grouping: from tokens to a table of names and the segments of their values.
use super::lex::{token_views, Token, TokenView};
use crate::text::str_eq;
use vstd::prelude::*;

verus! {

/// One piece of a value, as stored per name in a [`SymbolTable`]. Unlike
/// [`Token`], only `Text`/`Ref` are possible here: `Name`/`Equals` have
/// already served their purpose.
#[derive(Debug, PartialEq, Clone, Copy)]
pub enum Segment<'src> {
    /// A literal piece of a value.
    Text(&'src str),
    /// A `${OTHER_NAME}` reference within a value; carries just `OTHER_NAME`.
    Ref(&'src str),
}

/// A [`Segment`] with its text taken as characters.
pub enum SegmentView {
    Text(Seq<char>),
    Ref(Seq<char>),
}

impl<'src> View for Segment<'src> {
    type V = SegmentView;

    open spec fn view(&self) -> SegmentView {
        match self {
            Segment::Text(s) => SegmentView::Text(s@),
            Segment::Ref(s) => SegmentView::Ref(s@),
        }
    }
}

/// The views of a sequence of segments.
pub open spec fn segment_views<'src>(ss: Seq<Segment<'src>>) -> Seq<SegmentView> {
    ss.map_values(|x: Segment<'src>| x@)
}

/// True when some entry of `t` has the name `n`.
pub open spec fn has_name<X>(t: Seq<(Seq<char>, X)>, n: Seq<char>) -> bool {
    exists|i: int| 0 <= i < t.len() && t[i].0 == n
}

/// The position of the entry named `n` (meaningful when [`has_name`] holds).
pub open spec fn name_pos<X>(t: Seq<(Seq<char>, X)>, n: Seq<char>) -> int {
    choose|i: int| 0 <= i < t.len() && t[i].0 == n
}

/// What `t` holds under the name `n`, if anything.
pub open spec fn lookup_name<X>(t: Seq<(Seq<char>, X)>, n: Seq<char>) -> Option<X> {
    if has_name(t, n) {
        Some(t[name_pos(t, n)].1)
    } else {
        None
    }
}

/// No name occurs twice in `t`.
pub open spec fn names_distinct<X>(t: Seq<(Seq<char>, X)>) -> bool {
    forall|i: int, j: int| 0 <= i < t.len() && 0 <= j < t.len() && i != j ==> t[i].0 != t[j].0
}

/// `t` after `n` is (re)defined with an empty value: an existing entry is
/// emptied in place, a new one goes last.
pub open spec fn define_name(t: Seq<(Seq<char>, Seq<SegmentView>)>, n: Seq<char>) -> Seq<
    (Seq<char>, Seq<SegmentView>),
> {
    if has_name(t, n) {
        t.update(name_pos(t, n), (n, seq![]))
    } else {
        t.push((n, seq![]))
    }
}

/// `t` after `x` is appended to the value of `n` (an absent `n` is added last).
pub open spec fn add_segment(t: Seq<(Seq<char>, Seq<SegmentView>)>, n: Seq<char>, x: SegmentView) -> Seq<
    (Seq<char>, Seq<SegmentView>),
> {
    if has_name(t, n) {
        let p = name_pos(t, n);
        t.update(p, (n, t[p].1.push(x)))
    } else {
        t.push((n, seq![x]))
    }
}

/// The table built from `tokens`, and the name that later segments go to:
/// each `Name` starts (or restarts) its entry, `Text`/`Ref` are appended to
/// the current name, which is empty before the first `Name`.
pub open spec fn table_state(tokens: Seq<TokenView>) -> (Seq<(Seq<char>, Seq<SegmentView>)>, Seq<char>)
    decreases tokens.len(),
{
    if tokens.len() == 0 {
        (seq![], seq![])
    } else {
        let (t, name) = table_state(tokens.drop_last());
        match tokens.last() {
            TokenView::Name(n) => (define_name(t, n), n),
            TokenView::Equals => (t, name),
            TokenView::Text(x) => (add_segment(t, name, SegmentView::Text(x)), name),
            TokenView::Ref(x) => (add_segment(t, name, SegmentView::Ref(x)), name),
        }
    }
}

/// The table that [`build_symbol_table`] builds from `tokens`.
pub open spec fn symbol_table_of(tokens: Seq<TokenView>) -> Seq<(Seq<char>, Seq<SegmentView>)> {
    table_state(tokens).0
}

/// Names with the segments of their values, in the order in which each name
/// was first defined; no name twice.
pub struct SymbolTable<'src> {
    entries: Vec<(&'src str, Vec<Segment<'src>>)>,
}

/// The view of one table entry.
pub open spec fn entry_view<'src>(e: (&'src str, Vec<Segment<'src>>)) -> (Seq<char>, Seq<SegmentView>) {
    (e.0@, segment_views(e.1@))
}

/// The view of a list of table entries.
pub open spec fn entries_view<'src>(es: Seq<(&'src str, Vec<Segment<'src>>)>) -> Seq<
    (Seq<char>, Seq<SegmentView>),
> {
    es.map_values(|e: (&'src str, Vec<Segment<'src>>)| entry_view(e))
}

impl<'src> View for SymbolTable<'src> {
    type V = Seq<(Seq<char>, Seq<SegmentView>)>;

    closed spec fn view(&self) -> Self::V {
        entries_view(self.entries@)
    }
}

impl<'src> SymbolTable<'src> {
    #[verifier::type_invariant]
    spec fn distinct(&self) -> bool {
        names_distinct(self@)
    }

    /// The number of names.
    pub fn len(&self) -> (n: usize)
        ensures
            n == self@.len(),
    {
        self.entries.len()
    }

    /// The names, in the order in which each was first defined.
    pub fn names(&self) -> (ns: Vec<&'src str>)
        ensures
            ns@.map_values(|x: &str| x@) == self@.map_values(|e: (Seq<char>, Seq<SegmentView>)| e.0),
            names_distinct(self@),
    {
        proof {
            use_type_invariant(self);
        }
        let mut ns: Vec<&'src str> = Vec::new();
        for i in 0..self.entries.len()
            invariant
                ns@.map_values(|x: &str| x@) == self@.take(i as int).map_values(
                    |e: (Seq<char>, Seq<SegmentView>)| e.0,
                ),
        {
            let ghost before = ns@;
            ns.push(self.entries[i].0);
            proof {
                assert(self@[i as int].0 == self.entries@[i as int].0@);
                assert(ns@.map_values(|x: &str| x@) =~= before.map_values(|x: &str| x@).push(
                    self.entries@[i as int].0@,
                ));
                assert(self@.take(i + 1) =~= self@.take(i as int).push(self@[i as int]));
                assert(ns@.map_values(|x: &str| x@) =~= self@.take(i + 1).map_values(
                    |e: (Seq<char>, Seq<SegmentView>)| e.0,
                ));
            }
        }
        proof {
            assert(self@.take(self.entries@.len() as int) =~= self@);
        }
        ns
    }

    /// The segments of `name`'s value, if `name` is defined.
    pub fn get(&self, name: &str) -> (r: Option<&Vec<Segment<'src>>>)
        ensures
            match r {
                Some(v) => lookup_name(self@, name@) == Some(segment_views(v@)),
                None => lookup_name(self@, name@) is None,
            },
    {
        proof {
            use_type_invariant(self);
        }
        match find_entry(&self.entries, name) {
            Some(i) => {
                proof {
                    let t = self@;
                    assert(t[i as int].0 == name@);
                    let q = name_pos(t, name@);
                    assert(t[q].0 == name@);
                }
                Some(&self.entries[i].1)
            },
            None => {
                proof {
                    let t = self@;
                    if has_name(t, name@) {
                        let q = name_pos(t, name@);
                        assert(t[q].0 == name@);
                        assert(self.entries@[q].0@ != name@);
                    }
                }
                None
            },
        }
    }
}

/// The position of the entry named `name` in `entries`, if any.
pub(crate) fn find_entry<'src, X>(entries: &Vec<(&'src str, X)>, name: &str) -> (r: Option<usize>)
    ensures
        match r {
            Some(i) => i < entries@.len() && entries@[i as int].0@ == name@,
            None => forall|j: int| 0 <= j < entries@.len() ==> (#[trigger] entries@[j]).0@ != name@,
        },
{
    let mut i: usize = 0;
    while i < entries.len()
        invariant
            i <= entries@.len(),
            forall|j: int| 0 <= j < i ==> (#[trigger] entries@[j]).0@ != name@,
        decreases entries@.len() - i,
    {
        if str_eq(entries[i].0, name) {
            return Some(i);
        }
        i = i + 1;
    }
    None
}


/// Gives `name` an empty value: its entry is emptied, or a new one is added last.
fn define_entry<'src>(entries: &mut Vec<(&'src str, Vec<Segment<'src>>)>, name: &'src str)
    requires
        names_distinct(entries_view(old(entries)@)),
    ensures
        entries_view(final(entries)@) == define_name(entries_view(old(entries)@), name@),
        names_distinct(entries_view(final(entries)@)),
{
    let ghost t = entries_view(entries@);
    match find_entry(entries, name) {
        Some(i) => {
            entries[i].1 = Vec::new();
            proof {
                assert(t[i as int].0 == name@);
                let q = name_pos(t, name@);
                assert(t[q].0 == name@);
                assert(segment_views(Seq::<Segment<'src>>::empty()) =~= Seq::<SegmentView>::empty());
                assert(entries_view(entries@) =~= t.update(i as int, (name@, seq![])));
            }
        },
        None => {
            entries.push((name, Vec::new()));
            proof {
                assert(!has_name(t, name@)) by {
                    if has_name(t, name@) {
                        let q = name_pos(t, name@);
                        assert(t[q].0 == name@);
                        assert(old(entries)@[q].0@ != name@);
                    }
                }
                assert(segment_views(Seq::<Segment<'src>>::empty()) =~= Seq::<SegmentView>::empty());
                assert(entries_view(entries@) =~= t.push((name@, seq![])));
            }
        },
    }
    proof {
        let t2 = entries_view(entries@);
        assert forall|i: int, j: int| 0 <= i < t2.len() && 0 <= j < t2.len() && i != j implies t2[i].0
            != t2[j].0 by {
            if i < t.len() && j < t.len() {
                assert(t2[i].0 == t[i].0 && t2[j].0 == t[j].0);
            }
        }
    }
}

/// Appends `seg` to `name`'s value (adding `name` last if it is absent).
fn push_segment<'src>(
    entries: &mut Vec<(&'src str, Vec<Segment<'src>>)>,
    name: &'src str,
    seg: Segment<'src>,
)
    requires
        names_distinct(entries_view(old(entries)@)),
    ensures
        entries_view(final(entries)@) == add_segment(entries_view(old(entries)@), name@, seg@),
        names_distinct(entries_view(final(entries)@)),
{
    let ghost t = entries_view(entries@);
    match find_entry(entries, name) {
        Some(i) => {
            let ghost before = entries@[i as int].1@;
            entries[i].1.push(seg);
            proof {
                assert(t[i as int].0 == name@);
                let q = name_pos(t, name@);
                assert(t[q].0 == name@);
                assert(segment_views(before.push(seg)) =~= segment_views(before).push(seg@));
                assert(entries_view(entries@) =~= t.update(i as int, (name@, t[i as int].1.push(seg@))));
            }
        },
        None => {
            let mut v = Vec::new();
            v.push(seg);
            entries.push((name, v));
            proof {
                assert(!has_name(t, name@)) by {
                    if has_name(t, name@) {
                        let q = name_pos(t, name@);
                        assert(t[q].0 == name@);
                        assert(old(entries)@[q].0@ != name@);
                    }
                }
                assert(segment_views(v@) =~= seq![seg@]);
                assert(entries_view(entries@) =~= t.push((name@, seq![seg@])));
            }
        },
    }
    proof {
        let t2 = entries_view(entries@);
        assert forall|i: int, j: int| 0 <= i < t2.len() && 0 <= j < t2.len() && i != j implies t2[i].0
            != t2[j].0 by {
            if i < t.len() && j < t.len() {
                assert(t2[i].0 == t[i].0 && t2[j].0 == t[j].0);
            }
        }
    }
}

/// Groups a flat token stream by name: `Name`/`Equals` are consumed to find
/// the boundaries, and each name's `Text`/`Ref` pieces are collected under
/// it as [`Segment`]s.
pub fn build_symbol_table<'src>(tokens: Vec<Token<'src>>) -> (table: SymbolTable<'src>)
    ensures
        table@ == symbol_table_of(token_views(tokens@)),
{
    let mut entries: Vec<(&'src str, Vec<Segment<'src>>)> = Vec::new();
    let mut name: &'src str = "";
    proof {
        reveal_strlit("");
        assert(entries_view(entries@) =~= Seq::<(Seq<char>, Seq<SegmentView>)>::empty());
    }
    let ghost tv = token_views(tokens@);
    for i in 0..tokens.len()
        invariant
            tv == token_views(tokens@),
            names_distinct(entries_view(entries@)),
            table_state(tv.take(i as int)) == (entries_view(entries@), name@),
    {
        proof {
            assert(tv.take(i + 1).drop_last() =~= tv.take(i as int));
            assert(tv.take(i + 1).last() == tokens@[i as int]@);
        }
        match tokens[i] {
            Token::Name(n) => {
                name = n;
                define_entry(&mut entries, n);
            },
            Token::Equals => {},
            Token::Text(t) => {
                push_segment(&mut entries, name, Segment::Text(t));
            },
            Token::Ref(r) => {
                push_segment(&mut entries, name, Segment::Ref(r));
            },
        }
    }
    proof {
        assert(tv.take(tokens@.len() as int) =~= tv);
    }
    SymbolTable { entries }
}

/// The segment that a `Text`/`Ref` token becomes in a table.
pub open spec fn segment_of(t: TokenView) -> SegmentView {
    match t {
        TokenView::Ref(x) => SegmentView::Ref(x),
        TokenView::Text(x) => SegmentView::Text(x),
        TokenView::Name(x) => SegmentView::Text(x),
        TokenView::Equals => SegmentView::Text(seq![]),
    }
}

/// The token is a piece of a value.
pub open spec fn is_value_piece(t: TokenView) -> bool {
    t is Text || t is Ref
}

/// `t` with the value of its entry at `p` replaced, names unchanged, keeps
/// its names distinct; the lookup of that name gives the new value.
proof fn lemma_update_value(
    t: Seq<(Seq<char>, Seq<SegmentView>)>,
    p: int,
    v: Seq<SegmentView>,
)
    requires
        names_distinct(t),
        0 <= p < t.len(),
    ensures
        names_distinct(t.update(p, (t[p].0, v))),
        lookup_name(t.update(p, (t[p].0, v)), t[p].0) == Some(v),
{
    let t2 = t.update(p, (t[p].0, v));
    assert forall|i: int, j: int| 0 <= i < t2.len() && 0 <= j < t2.len() && i != j implies t2[i].0
        != t2[j].0 by {
        assert(t2[i].0 == t[i].0 && t2[j].0 == t[j].0);
    }
    assert(t2[p].0 == t[p].0);
    let q = name_pos(t2, t[p].0);
    assert(t2[q].0 == t[p].0);
}

/// `t` with a new last entry for an absent name keeps its names distinct,
/// and the lookup of that name gives its value.
proof fn lemma_push_entry(t: Seq<(Seq<char>, Seq<SegmentView>)>, n: Seq<char>, v: Seq<SegmentView>)
    requires
        names_distinct(t),
        !has_name(t, n),
    ensures
        names_distinct(t.push((n, v))),
        lookup_name(t.push((n, v)), n) == Some(v),
{
    let t2 = t.push((n, v));
    assert forall|i: int, j: int| 0 <= i < t2.len() && 0 <= j < t2.len() && i != j implies t2[i].0
        != t2[j].0 by {
        if i < t.len() && j < t.len() {
            assert(t2[i] == t[i] && t2[j] == t[j]);
        } else if i < t.len() {
            assert(t2[i] == t[i]);
            if t[i].0 == n {
                assert(has_name(t, n));
            }
        } else if j < t.len() {
            assert(t2[j] == t[j]);
            if t[j].0 == n {
                assert(has_name(t, n));
            }
        }
    }
    assert(t2[t.len() as int].0 == n);
    let q = name_pos(t2, n);
    assert(t2[q].0 == n);
}

/// Defining `n` leaves it with an empty value, names still distinct.
proof fn lemma_define_name(t: Seq<(Seq<char>, Seq<SegmentView>)>, n: Seq<char>)
    requires
        names_distinct(t),
    ensures
        names_distinct(define_name(t, n)),
        lookup_name(define_name(t, n), n) == Some(Seq::<SegmentView>::empty()),
{
    if has_name(t, n) {
        let p = name_pos(t, n);
        assert(t[p].0 == n);
        lemma_update_value(t, p, seq![]);
    } else {
        lemma_push_entry(t, n, seq![]);
    }
}

/// Appending `x` to `n`'s value extends exactly that value, names still distinct.
proof fn lemma_add_segment(t: Seq<(Seq<char>, Seq<SegmentView>)>, n: Seq<char>, x: SegmentView)
    requires
        names_distinct(t),
    ensures
        names_distinct(add_segment(t, n, x)),
        lookup_name(add_segment(t, n, x), n) == Some(
            match lookup_name(t, n) {
                Some(v) => v.push(x),
                None => seq![x],
            },
        ),
{
    if has_name(t, n) {
        let p = name_pos(t, n);
        assert(t[p].0 == n);
        lemma_update_value(t, p, t[p].1.push(x));
    } else {
        lemma_push_entry(t, n, seq![x]);
    }
}

/// Every table built from tokens names each entry once.
pub proof fn lemma_table_distinct(tokens: Seq<TokenView>)
    ensures
        names_distinct(table_state(tokens).0),
    decreases tokens.len(),
{
    if tokens.len() > 0 {
        lemma_table_distinct(tokens.drop_last());
        let (t, name) = table_state(tokens.drop_last());
        match tokens.last() {
            TokenView::Name(n) => lemma_define_name(t, n),
            TokenView::Equals => {},
            TokenView::Text(x) => lemma_add_segment(t, name, SegmentView::Text(x)),
            TokenView::Ref(x) => lemma_add_segment(t, name, SegmentView::Ref(x)),
        }
    }
}

/// Grouping by name: after a `Name(n)` token, `Equals` and the value pieces
/// that follow it, the table holds under `n` exactly those pieces, in order;
/// a later definition of a name replaces an earlier one.
pub proof fn law_definition_groups_pieces(
    before: Seq<TokenView>,
    n: Seq<char>,
    pieces: Seq<TokenView>,
)
    requires
        forall|i: int| 0 <= i < pieces.len() ==> is_value_piece(#[trigger] pieces[i]),
    ensures
        lookup_name(
            symbol_table_of(before + seq![TokenView::Name(n), TokenView::Equals] + pieces),
            n,
        ) == Some(pieces.map_values(|p: TokenView| segment_of(p))),
        table_state(before + seq![TokenView::Name(n), TokenView::Equals] + pieces).1 == n,
    decreases pieces.len(),
{
    let head = before + seq![TokenView::Name(n), TokenView::Equals];
    let all = head + pieces;
    if pieces.len() == 0 {
        assert(all =~= head);
        let named = before.push(TokenView::Name(n));
        assert(head.drop_last() =~= named);
        assert(named.drop_last() =~= before);
        assert(head.last() == TokenView::Equals);
        assert(named.last() == TokenView::Name(n));
        assert(table_state(head) == table_state(named));
        assert(table_state(named) == (define_name(table_state(before).0, n), n));
        lemma_table_distinct(before);
        lemma_define_name(table_state(before).0, n);
        assert(pieces.map_values(|p: TokenView| segment_of(p)) =~= Seq::<SegmentView>::empty());
    } else {
        let shorter = pieces.drop_last();
        assert forall|i: int| 0 <= i < shorter.len() implies is_value_piece(#[trigger] shorter[i]) by {
            assert(shorter[i] == pieces[i]);
        }
        law_definition_groups_pieces(before, n, shorter);
        assert(all.drop_last() =~= head + shorter);
        assert(all.last() == pieces.last());
        assert(is_value_piece(pieces[pieces.len() - 1]));
        lemma_table_distinct(head + shorter);
        let (t, name) = table_state(head + shorter);
        assert(name == n);
        assert(table_state(all) == (add_segment(t, n, segment_of(pieces.last())), n));
        lemma_add_segment(t, n, segment_of(pieces.last()));
        assert(pieces.map_values(|p: TokenView| segment_of(p)) =~= shorter.map_values(
            |p: TokenView| segment_of(p),
        ).push(segment_of(pieces.last())));
    }
}

/// Defining a name or extending its value leaves every other name's entry
/// as it was, and keeps every name that was there.
pub proof fn law_other_names_untouched(
    t: Seq<(Seq<char>, Seq<SegmentView>)>,
    n: Seq<char>,
    m: Seq<char>,
    x: SegmentView,
)
    requires
        names_distinct(t),
        m != n,
    ensures
        lookup_name(define_name(t, n), m) == lookup_name(t, m),
        lookup_name(add_segment(t, n, x), m) == lookup_name(t, m),
        has_name(define_name(t, n), n),
        has_name(add_segment(t, n, x), n),
{
    lemma_define_name(t, n);
    lemma_add_segment(t, n, x);
    lemma_other_name(t, define_name(t, n), n, m);
    lemma_other_name(t, add_segment(t, n, x), n, m);
    let d = define_name(t, n);
    let a = add_segment(t, n, x);
    assert(lookup_name(d, n) is Some);
    assert(lookup_name(a, n) is Some);
}

/// `t2` is `t` with the entry of `n` changed or added: any other name keeps
/// its entry.
proof fn lemma_other_name(
    t: Seq<(Seq<char>, Seq<SegmentView>)>,
    t2: Seq<(Seq<char>, Seq<SegmentView>)>,
    n: Seq<char>,
    m: Seq<char>,
)
    requires
        names_distinct(t),
        names_distinct(t2),
        m != n,
        t2 == define_name(t, n) || exists|x: SegmentView| t2 == add_segment(t, n, x),
    ensures
        lookup_name(t2, m) == lookup_name(t, m),
{
    // Positions of `t` keep their names, except that of `n`; `t2` may have one more entry, named `n`.
    assert(t2.len() == t.len() || t2.len() == t.len() + 1);
    assert forall|i: int| 0 <= i < t.len() && t[i].0 != n implies #[trigger] t2[i] == t[i] by {
        if has_name(t, n) {
            let p = name_pos(t, n);
            assert(t[p].0 == n);
        }
    }
    assert forall|i: int| 0 <= i < t2.len() && #[trigger] t2[i].0 != n implies i < t.len() && t2[i]
        == t[i] by {
        if has_name(t, n) {
            let p = name_pos(t, n);
            assert(t[p].0 == n);
        }
    }
    if has_name(t, m) {
        let q = name_pos(t, m);
        assert(t[q].0 == m);
        assert(t2[q] == t[q]);
        let q2 = name_pos(t2, m);
        assert(t2[q2].0 == m);
    } else if has_name(t2, m) {
        let q2 = name_pos(t2, m);
        assert(t2[q2].0 == m);
        assert(t[q2] == t2[q2]);
    }
}

/// Every name that a `Name` token defines has an entry in the table built
/// from the tokens.
pub proof fn law_every_defined_name_has_entry(tokens: Seq<TokenView>, i: int, n: Seq<char>)
    requires
        0 <= i < tokens.len(),
        tokens[i] == TokenView::Name(n),
    ensures
        has_name(symbol_table_of(tokens), n),
    decreases tokens.len(),
{
    let prev = tokens.drop_last();
    lemma_table_distinct(prev);
    let (t, name) = table_state(prev);
    if i == tokens.len() - 1 {
        lemma_define_name(t, n);
        assert(lookup_name(define_name(t, n), n) is Some);
    } else {
        assert(prev[i] == tokens[i]);
        law_every_defined_name_has_entry(prev, i, n);
        match tokens.last() {
            TokenView::Name(m) => lemma_keeps_name(t, define_name(t, m), m, n),
            TokenView::Equals => {},
            TokenView::Text(x) => lemma_keeps_name(t, add_segment(t, name, SegmentView::Text(x)), name, n),
            TokenView::Ref(x) => lemma_keeps_name(t, add_segment(t, name, SegmentView::Ref(x)), name, n),
        }
    }
}

/// Changing or adding the entry of `m` keeps the name `n` in the table.
proof fn lemma_keeps_name(
    t: Seq<(Seq<char>, Seq<SegmentView>)>,
    t2: Seq<(Seq<char>, Seq<SegmentView>)>,
    m: Seq<char>,
    n: Seq<char>,
)
    requires
        names_distinct(t),
        has_name(t, n),
        t2 == define_name(t, m) || exists|x: SegmentView| t2 == add_segment(t, m, x),
    ensures
        has_name(t2, n),
{
    if n == m {
        let x = choose|x: SegmentView| t2 == add_segment(t, m, x);
        lemma_define_name(t, m);
        lemma_add_segment(t, m, x);
        if t2 == define_name(t, m) {
            assert(lookup_name(t2, n) is Some);
        } else {
            assert(lookup_name(t2, n) is Some);
        }
    } else {
        let x = choose|x: SegmentView| t2 == add_segment(t, m, x);
        lemma_define_name(t, m);
        lemma_add_segment(t, m, x);
        lemma_other_name(t, t2, m, n);
        let q = name_pos(t, n);
        assert(t[q].0 == n);
        assert(lookup_name(t, n) is Some);
    }
}

} // verus!
