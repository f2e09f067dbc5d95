//! Lexing: from source text to a flat list of tokens.
use vstd::prelude::*;

verus! {

/// Error returned by [`tokenize`] for malformed input.
#[derive(Debug, PartialEq, Eq, Structural)]
pub enum TokenizeError {
    /// A non-empty, non-comment line has no `=`.
    MissingEquals,
    /// A `${` was never closed with a matching `}`.
    UnterminatedRef,
}

/// One piece recognized while scanning the source text.
#[derive(Debug, PartialEq, Clone, Copy)]
pub enum Token<'src> {
    /// The name on the left of `=`.
    Name(&'src str),
    /// The `=` separating a name from its value.
    Equals,
    /// A literal piece of a value.
    Text(&'src str),
    /// A `${OTHER_NAME}` reference within a value; carries just `OTHER_NAME`.
    Ref(&'src str),
}

/// A [`Token`] with its text taken as characters.
pub enum TokenView {
    Name(Seq<char>),
    Equals,
    Text(Seq<char>),
    Ref(Seq<char>),
}

impl<'src> View for Token<'src> {
    type V = TokenView;

    open spec fn view(&self) -> TokenView {
        match self {
            Token::Name(s) => TokenView::Name(s@),
            Token::Equals => TokenView::Equals,
            Token::Text(s) => TokenView::Text(s@),
            Token::Ref(s) => TokenView::Ref(s@),
        }
    }
}

/// The views of a sequence of tokens.
pub open spec fn token_views<'src>(ts: Seq<Token<'src>>) -> Seq<TokenView> {
    ts.map_values(|t: Token<'src>| t@)
}

/// True when `c` has the Unicode `White_Space` property, which is what
/// `char::is_whitespace`, and so `str::trim`, goes by.
pub open spec fn is_ws(c: char) -> bool {
    let u = c as u32;
    ||| 0x09 <= u <= 0x0D
    ||| u == 0x20
    ||| u == 0x85
    ||| u == 0xA0
    ||| u == 0x1680
    ||| 0x2000 <= u <= 0x200A
    ||| u == 0x2028
    ||| u == 0x2029
    ||| u == 0x202F
    ||| u == 0x205F
    ||| u == 0x3000
}

/// `s` without its leading whitespace.
pub open spec fn trim_start(s: Seq<char>) -> Seq<char>
    decreases s.len(),
{
    if s.len() > 0 && is_ws(s[0]) {
        trim_start(s.drop_first())
    } else {
        s
    }
}

/// `s` without its trailing whitespace.
pub open spec fn trim_end(s: Seq<char>) -> Seq<char>
    decreases s.len(),
{
    if s.len() > 0 && is_ws(s.last()) {
        trim_end(s.drop_last())
    } else {
        s
    }
}

/// `s` without leading and trailing whitespace, as `str::trim` gives it.
pub open spec fn trim(s: Seq<char>) -> Seq<char> {
    trim_end(trim_start(s))
}

/// `i` is the first position of `c` in `s`.
pub open spec fn first_at(s: Seq<char>, c: char, i: int) -> bool {
    &&& 0 <= i < s.len()
    &&& s[i] == c
    &&& forall|j: int| 0 <= j < i ==> s[j] != c
}

/// The first position of `c` in `s`, as `str::find` with a one-character
/// pattern gives it (counted in characters).
pub open spec fn find_char(s: Seq<char>, c: char) -> Option<int> {
    if exists|i: int| first_at(s, c, i) {
        Some(choose|i: int| first_at(s, c, i))
    } else {
        None
    }
}

/// A reference opens at position `i` of `s`: `s[i..]` starts with `${`.
pub open spec fn opens_ref(s: Seq<char>, i: int) -> bool {
    0 <= i && i + 1 < s.len() && s[i] == '$' && s[i + 1] == '{'
}

/// `i` is the first position where a reference opens in `s`.
pub open spec fn first_ref_at(s: Seq<char>, i: int) -> bool {
    &&& opens_ref(s, i)
    &&& forall|j: int| 0 <= j < i ==> !opens_ref(s, j)
}

/// The first position of `${` in `s`, as `str::find("${")` gives it.
pub open spec fn find_ref(s: Seq<char>) -> Option<int> {
    if exists|i: int| first_ref_at(s, i) {
        Some(choose|i: int| first_ref_at(s, i))
    } else {
        None
    }
}

/// `r` with `t` in front of its tokens; an error stays as it is.
pub open spec fn prepend(
    t: Seq<TokenView>,
    r: Result<Seq<TokenView>, TokenizeError>,
) -> Result<Seq<TokenView>, TokenizeError> {
    match r {
        Ok(u) => Ok(t + u),
        Err(e) => Err(e),
    }
}

/// The tokens of a value (the part of a line after `=`): literal text and
/// `${NAME}` references, scanned left to right. Literal text is kept as it
/// stands (the value as a whole was trimmed), and an empty piece of it, as
/// between two adjacent references, gives no token; the name inside `${..}`
/// is trimmed.
pub open spec fn value_tokens(r: Seq<char>) -> Result<Seq<TokenView>, TokenizeError>
    decreases r.len(),
{
    match find_ref(r) {
        None => if r.len() == 0 {
            Ok(seq![])
        } else {
            Ok(seq![TokenView::Text(r)])
        },
        Some(x) => {
            let text = r.subrange(0, x);
            let pre = if text.len() == 0 {
                seq![]
            } else {
                seq![TokenView::Text(text)]
            };
            let rest = r.subrange(x, r.len() as int);
            match find_char(rest, '}') {
                None => Err(TokenizeError::UnterminatedRef),
                Some(e) => {
                    let name = trim(rest.subrange(2, e));
                    let remaining = rest.subrange(e + 1, rest.len() as int);
                    proof {
                        assert(0 <= x);
                        assert(e >= 0);
                    }
                    prepend(pre + seq![TokenView::Ref(name)], value_tokens(remaining))
                },
            }
        },
    }
}

/// The tokens of one line: nothing for a blank line or a comment; else the
/// trimmed name before the first `=`, `Equals`, and the tokens of the
/// trimmed value after it.
pub open spec fn line_tokens(line: Seq<char>) -> Result<Seq<TokenView>, TokenizeError> {
    let l = trim(line);
    if l.len() == 0 || l[0] == '#' {
        Ok(seq![])
    } else {
        match find_char(l, '=') {
            None => Err(TokenizeError::MissingEquals),
            Some(e) => prepend(
                seq![TokenView::Name(trim(l.subrange(0, e))), TokenView::Equals],
                value_tokens(trim(l.subrange(e + 1, l.len() as int))),
            ),
        }
    }
}

/// The tokens of a whole source text: its lines, split at each `\n`, taken
/// in order; the first line in error decides the error. (`str::lines` also
/// drops a `\r` before the `\n` and the empty piece after a final `\n`; both
/// vanish when a line is trimmed anyway.)
pub open spec fn tokenize_spec(s: Seq<char>) -> Result<Seq<TokenView>, TokenizeError>
    decreases s.len(),
{
    match find_char(s, '\n') {
        None => line_tokens(s),
        Some(i) => match line_tokens(s.subrange(0, i)) {
            Err(e) => Err(e),
            Ok(t) => {
                proof {
                    assert(0 <= i);
                }
                prepend(t, tokenize_spec(s.subrange(i + 1, s.len() as int)))
            },
        },
    }
}


/// The characters of `source`, in order.
fn chars_of(source: &str) -> (cs: Vec<char>)
    ensures
        cs@ == source@,
{
    let mut cs: Vec<char> = Vec::new();
    for c in it: source.chars()
        invariant
            cs@ == it.seq().take(it.index() as int),
    {
        cs.push(c);
    }
    cs
}


/// Whether `c` is whitespace, as `char::is_whitespace` decides it.
fn is_whitespace(c: char) -> (b: bool)
    ensures
        b == is_ws(c),
{
    let u = c as u32;
    (0x09 <= u && u <= 0x0D) || u == 0x20 || u == 0x85 || u == 0xA0 || u == 0x1680 || (0x2000 <= u
        && u <= 0x200A) || u == 0x2028 || u == 0x2029 || u == 0x202F || u == 0x205F || u == 0x3000
}

/// The bounds of `cs[lo..hi]` trimmed.
fn trim_range(cs: &Vec<char>, lo: usize, hi: usize) -> (r: (usize, usize))
    requires
        lo <= hi <= cs@.len(),
    ensures
        lo <= r.0 <= r.1 <= hi,
        trim(cs@.subrange(lo as int, hi as int)) == cs@.subrange(r.0 as int, r.1 as int),
{
    let ghost s = cs@;
    let mut a = lo;
    while a < hi && is_whitespace(cs[a])
        invariant
            lo <= a <= hi <= s.len(),
            s == cs@,
            trim_start(s.subrange(lo as int, hi as int)) == trim_start(s.subrange(a as int, hi as int)),
        decreases hi - a,
    {
        assert(s.subrange(a as int, hi as int).drop_first() =~= s.subrange(a + 1, hi as int));
        a = a + 1;
    }
    assert(trim_start(s.subrange(lo as int, hi as int)) == s.subrange(a as int, hi as int));
    let mut b = hi;
    while b > a && is_whitespace(cs[b - 1])
        invariant
            lo <= a <= b <= hi <= s.len(),
            s == cs@,
            trim_end(s.subrange(a as int, hi as int)) == trim_end(s.subrange(a as int, b as int)),
        decreases b - a,
    {
        assert(s.subrange(a as int, b as int).drop_last() =~= s.subrange(a as int, b - 1));
        b = b - 1;
    }
    (a, b)
}

/// The first position of `c` in `cs[lo..hi]`, counted from the start of `cs`.
fn find_char_in(cs: &Vec<char>, lo: usize, hi: usize, c: char) -> (r: Option<usize>)
    requires
        lo <= hi <= cs@.len(),
    ensures
        match r {
            Some(i) => lo <= i < hi && find_char(cs@.subrange(lo as int, hi as int), c) == Some(
                i - lo,
            ),
            None => find_char(cs@.subrange(lo as int, hi as int), c) is None,
        },
{
    let ghost sub = cs@.subrange(lo as int, hi as int);
    let mut i = lo;
    while i < hi
        invariant
            lo <= i <= hi <= cs@.len(),
            sub == cs@.subrange(lo as int, hi as int),
            forall|j: int| 0 <= j < i - lo ==> sub[j] != c,
        decreases hi - i,
    {
        if cs[i] == c {
            proof {
                assert(first_at(sub, c, i - lo));
                let k = choose|k: int| first_at(sub, c, k);
                assert(first_at(sub, c, k));
                if k < i - lo {
                    assert(sub[k] != c);
                } else if k > i - lo {
                    assert(sub[i - lo] != c);
                }
            }
            return Some(i);
        }
        i = i + 1;
    }
    None
}

/// The first position where `${` starts in `cs[lo..hi]`, counted from the start of `cs`.
fn find_ref_in(cs: &Vec<char>, lo: usize, hi: usize) -> (r: Option<usize>)
    requires
        lo <= hi <= cs@.len(),
    ensures
        match r {
            Some(i) => lo <= i && i + 1 < hi && find_ref(cs@.subrange(lo as int, hi as int)) == Some(
                i - lo,
            ),
            None => find_ref(cs@.subrange(lo as int, hi as int)) is None,
        },
{
    let ghost sub = cs@.subrange(lo as int, hi as int);
    let mut i = lo;
    while i < hi && i + 1 < hi
        invariant
            lo <= i <= hi <= cs@.len(),
            sub == cs@.subrange(lo as int, hi as int),
            forall|j: int| 0 <= j < i - lo ==> !opens_ref(sub, j),
        decreases hi - i,
    {
        if cs[i] == '$' && cs[i + 1] == '{' {
            proof {
                assert(opens_ref(sub, i - lo));
                assert(first_ref_at(sub, i - lo));
                let k = choose|k: int| first_ref_at(sub, k);
                assert(first_ref_at(sub, k));
                if k < i - lo {
                    assert(!opens_ref(sub, k));
                } else if k > i - lo {
                    assert(!opens_ref(sub, i - lo));
                }
            }
            return Some(i);
        }
        i = i + 1;
    }
    proof {
        assert forall|k: int| !first_ref_at(sub, k) by {
            if first_ref_at(sub, k) {
                assert(opens_ref(sub, k));
                assert(k < i - lo);
            }
        }
    }
    None
}


/// Appends `t` to `tokens`.
fn push_token<'src>(tokens: &mut Vec<Token<'src>>, t: Token<'src>)
    ensures
        token_views(final(tokens)@) == token_views(old(tokens)@).push(t@),
{
    tokens.push(t);
    assert(token_views(tokens@) =~= token_views(old(tokens)@).push(t@));
}

proof fn lemma_prepend_assoc(a: Seq<TokenView>, b: Seq<TokenView>, r: Result<Seq<TokenView>, TokenizeError>)
    ensures
        prepend(a, prepend(b, r)) == prepend(a + b, r),
{
    if let Ok(u) = r {
        assert(a + (b + u) =~= (a + b) + u);
    }
}

/// Pushes onto `tokens` the tokens of the value `cs[lo..hi]` (see [`value_tokens`]).
fn push_value_tokens<'src>(
    source: &'src str,
    cs: &Vec<char>,
    lo: usize,
    hi: usize,
    tokens: &mut Vec<Token<'src>>,
) -> (r: Result<(), TokenizeError>)
    requires
        cs@ == source@,
        lo <= hi <= cs@.len(),
    ensures
        match r {
            Ok(()) => prepend(
                token_views(old(tokens)@),
                value_tokens(cs@.subrange(lo as int, hi as int)),
            ) == Ok::<Seq<TokenView>, TokenizeError>(token_views(final(tokens)@)),
            Err(e) => value_tokens(cs@.subrange(lo as int, hi as int)) == Err::<
                Seq<TokenView>,
                TokenizeError,
            >(e),
        },
{
    let ghost s = cs@;
    let ghost start = token_views(tokens@);
    let mut a = lo;
    let b = hi;
    loop
        invariant
            s == cs@,
            s == source@,
            start == token_views(old(tokens)@),
            lo <= a <= b <= hi <= s.len(),
            prepend(start, value_tokens(s.subrange(lo as int, hi as int))) == prepend(
                token_views(tokens@),
                value_tokens(s.subrange(a as int, b as int)),
            ),
        decreases b - a,
    {
        let ghost sub = s.subrange(a as int, b as int);
        let ghost before_step = token_views(tokens@);
        match find_ref_in(cs, a, b) {
            None => {
                if a < b {
                    push_token(tokens, Token::Text(source.substring_char(a, b)));
                }
                proof {
                    let u: Seq<TokenView> = if a == b {
                        seq![]
                    } else {
                        seq![TokenView::Text(sub)]
                    };
                    if a == b {
                        assert(sub =~= Seq::<char>::empty());
                    } else {
                        assert(source@.subrange(a as int, b as int) == sub);
                    }
                    assert(value_tokens(sub) == Ok::<Seq<TokenView>, TokenizeError>(u));
                    assert(before_step + u =~= token_views(tokens@));
                    assert(prepend(before_step, value_tokens(sub)) == Ok::<Seq<TokenView>, TokenizeError>(token_views(tokens@)));
                }
                return Ok(());
            },
            Some(x) => {
                if a < x {
                    push_token(tokens, Token::Text(source.substring_char(a, x)));
                }
                let ghost rest = sub.subrange(x - a, b - a);
                proof {
                    assert(sub.subrange(0, x - a) =~= s.subrange(a as int, x as int));
                    assert(rest =~= s.subrange(x as int, b as int));
                }
                match find_char_in(cs, x, b, '}') {
                    None => {
                        return Err(TokenizeError::UnterminatedRef);
                    },
                    Some(e) => {
                        let ghost er = e - x;
                        proof {
                            assert(er >= 2) by {
                                assert(first_at(rest, '}', er));
                                assert(rest[0] == '$' && rest[1] == '{');
                            }
                        }
                        let (na, nb) = trim_range(cs, x + 2, e);
                        push_token(tokens, Token::Ref(source.substring_char(na, nb)));
                        let ra = e + 1;
                        proof {
                            assert(rest.subrange(2, er) =~= s.subrange(x + 2, e as int));
                            assert(rest.subrange(er + 1, rest.len() as int) =~= s.subrange(e + 1, b as int));
                            let text = sub.subrange(0, x - a);
                            let pre = if text.len() == 0 {
                                seq![]
                            } else {
                                seq![TokenView::Text(text)]
                            };
                            let step = pre + seq![TokenView::Ref(s.subrange(na as int, nb as int))];
                            assert(value_tokens(sub) == prepend(step, value_tokens(s.subrange(ra as int, b as int))));
                            assert(token_views(tokens@) =~= before_step + step);
                            lemma_prepend_assoc(before_step, step, value_tokens(s.subrange(ra as int, b as int)));
                        }
                        a = ra;
                    },
                }
            },
        }
    }
}


/// Pushes onto `tokens` the tokens of the line `cs[lo..hi]` (see [`line_tokens`]).
fn push_line_tokens<'src>(
    source: &'src str,
    cs: &Vec<char>,
    lo: usize,
    hi: usize,
    tokens: &mut Vec<Token<'src>>,
) -> (r: Result<(), TokenizeError>)
    requires
        cs@ == source@,
        lo <= hi <= cs@.len(),
    ensures
        match r {
            Ok(()) => prepend(
                token_views(old(tokens)@),
                line_tokens(cs@.subrange(lo as int, hi as int)),
            ) == Ok::<Seq<TokenView>, TokenizeError>(token_views(final(tokens)@)),
            Err(e) => line_tokens(cs@.subrange(lo as int, hi as int)) == Err::<
                Seq<TokenView>,
                TokenizeError,
            >(e),
        },
{
    let ghost s = cs@;
    let ghost start = token_views(tokens@);
    let (la, lb) = trim_range(cs, lo, hi);
    let ghost l = s.subrange(la as int, lb as int);
    if la == lb || cs[la] == '#' {
        proof {
            assert(start + seq![] =~= start);
        }
        return Ok(());
    }
    match find_char_in(cs, la, lb, '=') {
        None => Err(TokenizeError::MissingEquals),
        Some(e) => {
            let (na, nb) = trim_range(cs, la, e);
            push_token(tokens, Token::Name(source.substring_char(na, nb)));
            push_token(tokens, Token::Equals);
            let (va, vb) = trim_range(cs, e + 1, lb);
            proof {
                assert(l.subrange(0, e - la) =~= s.subrange(la as int, e as int));
                assert(l.subrange(e - la + 1, l.len() as int) =~= s.subrange(e + 1, lb as int));
                let head = seq![TokenView::Name(s.subrange(na as int, nb as int)), TokenView::Equals];
                assert(token_views(tokens@) =~= start + head);
                lemma_prepend_assoc(start, head, value_tokens(s.subrange(va as int, vb as int)));
            }
            push_value_tokens(source, cs, va, vb, tokens)
        },
    }
}

/// Splits `source` into tokens; see [`tokenize_spec`] for the grammar.
pub fn tokenize(source: &str) -> (r: Result<Vec<Token<'_>>, TokenizeError>)
    ensures
        match r {
            Ok(ts) => tokenize_spec(source@) == Ok::<Seq<TokenView>, TokenizeError>(
                token_views(ts@),
            ),
            Err(e) => tokenize_spec(source@) == Err::<Seq<TokenView>, TokenizeError>(e),
        },
{
    let cs = chars_of(source);
    let ghost s = cs@;
    let n = cs.len();
    let mut tokens: Vec<Token<'_>> = Vec::new();
    let mut start: usize = 0;
    proof {
        assert(s.subrange(0, n as int) =~= s);
        assert(token_views(tokens@) =~= Seq::<TokenView>::empty());
        assert(prepend(Seq::<TokenView>::empty(), tokenize_spec(s)) == tokenize_spec(s)) by {
            if let Ok(u) = tokenize_spec(s) {
                assert(Seq::<TokenView>::empty() + u =~= u);
            }
        }
    }
    loop
        invariant
            s == cs@,
            s == source@,
            n == s.len(),
            start <= n,
            tokenize_spec(s) == prepend(
                token_views(tokens@),
                tokenize_spec(s.subrange(start as int, n as int)),
            ),
        decreases n - start,
    {
        let ghost sub = s.subrange(start as int, n as int);
        let ghost before_line = token_views(tokens@);
        match find_char_in(&cs, start, n, '\n') {
            None => {
                let pushed = push_line_tokens(source, &cs, start, n, &mut tokens);
                match pushed {
                    Ok(()) => {
                        return Ok(tokens);
                    },
                    Err(e) => {
                        return Err(e);
                    },
                }
            },
            Some(i) => {
                let pushed = push_line_tokens(source, &cs, start, i, &mut tokens);
                proof {
                    assert(sub.subrange(0, i - start) =~= s.subrange(start as int, i as int));
                    assert(sub.subrange(i - start + 1, sub.len() as int) =~= s.subrange(i + 1, n as int));
                }
                match pushed {
                    Ok(()) => {
                        proof {
                            let t = line_tokens(s.subrange(start as int, i as int))->Ok_0;
                            lemma_prepend_assoc(before_line, t, tokenize_spec(s.subrange(i + 1, n as int)));
                        }
                    },
                    Err(e) => {
                        return Err(e);
                    },
                }
                start = i + 1;
            },
        }
    }
}

impl TokenizeError {
    /// The message that describes the error.
    pub fn to_string(&self) -> (msg: String)
        ensures
            msg@ == match self {
                TokenizeError::MissingEquals => "line has no '=' separating a name from a value"@,
                TokenizeError::UnterminatedRef => "'${' was never closed with a matching '}'"@,
            },
    {
        match self {
            TokenizeError::MissingEquals => String::from_str(
                "line has no '=' separating a name from a value",
            ),
            TokenizeError::UnterminatedRef => String::from_str(
                "'${' was never closed with a matching '}'",
            ),
        }
    }
}

/// Lines are tokenized one by one, in order: a first line `a` (with no line
/// break in it) contributes its own tokens, or its error, ahead of the rest.
pub proof fn law_lines_in_order(a: Seq<char>, b: Seq<char>)
    requires
        !a.contains('\n'),
    ensures
        tokenize_spec(a + seq!['\n'] + b) == match line_tokens(a) {
            Err(e) => Err(e),
            Ok(t) => prepend(t, tokenize_spec(b)),
        },
{
    let s = a + seq!['\n'] + b;
    let n = a.len() as int;
    assert(s[n] == '\n');
    assert forall|j: int| 0 <= j < n implies s[j] != '\n' by {
        assert(s[j] == a[j]);
        if a[j] == '\n' {
            assert(a.contains('\n'));
        }
    }
    assert(first_at(s, '\n', n));
    let k = choose|k: int| first_at(s, '\n', k);
    assert(first_at(s, '\n', k));
    if k < n {
        assert(s[k] != '\n');
    } else if k > n {
        assert(s[n] != '\n');
    }
    assert(s.subrange(0, n) =~= a);
    assert(s.subrange(n + 1, s.len() as int) =~= b);
}

/// Comments and blank lines are ignored: one in front of a text changes
/// nothing in its tokens.
pub proof fn law_comment_or_blank_line_ignored(a: Seq<char>, b: Seq<char>)
    requires
        !a.contains('\n'),
        trim(a).len() == 0 || trim(a)[0] == '#',
    ensures
        tokenize_spec(a + seq!['\n'] + b) == tokenize_spec(b),
{
    law_lines_in_order(a, b);
    assert(line_tokens(a) == Ok::<Seq<TokenView>, TokenizeError>(seq![]));
    if let Ok(u) = tokenize_spec(b) {
        assert(Seq::<TokenView>::empty() + u =~= u);
    }
}

/// `find_char` gives the first position of `c`, and `None` exactly when `c`
/// does not occur.
pub proof fn law_find_char(s: Seq<char>, c: char)
    ensures
        forall|i: int|
            find_char(s, c) == Some(i) <==> (0 <= i < s.len() && s[i] == c && forall|j: int|
                0 <= j < i ==> s[j] != c),
        find_char(s, c) is None <==> forall|j: int| 0 <= j < s.len() ==> s[j] != c,
{
    if exists|i: int| first_at(s, c, i) {
        let k = choose|i: int| first_at(s, c, i);
        assert forall|i: int|
            (0 <= i < s.len() && s[i] == c && forall|j: int| 0 <= j < i ==> s[j] != c) implies i
            == k by {
            if i < k {
                assert(s[i] != c);
            } else if i > k {
                assert(s[k] != c);
            }
        }
        assert(s[k] == c);
    } else {
        assert forall|j: int| 0 <= j < s.len() implies s[j] != c by {
            if s[j] == c {
                lemma_first_exists(s, c, j);
            }
        }
    }
}

/// An occurrence of `c` at `j` means there is a first one.
proof fn lemma_first_exists(s: Seq<char>, c: char, j: int)
    requires
        0 <= j < s.len(),
        s[j] == c,
    ensures
        exists|i: int| first_at(s, c, i),
    decreases j,
{
    if forall|k: int| 0 <= k < j ==> s[k] != c {
        assert(first_at(s, c, j));
    } else {
        let k = choose|k: int| 0 <= k < j && s[k] == c;
        lemma_first_exists(s, c, k);
    }
}

/// A `${` at `j` means there is a first one.
proof fn lemma_first_ref_exists(s: Seq<char>, j: int)
    requires
        0 <= j,
        j + 1 < s.len(),
        s[j] == '$',
        s[j + 1] == '{',
    ensures
        exists|i: int| first_ref_at(s, i),
    decreases j,
{
    if forall|k: int| 0 <= k < j ==> !opens_ref(s, k) {
        assert(first_ref_at(s, j));
    } else {
        let k = choose|k: int| 0 <= k < j && opens_ref(s, k);
        lemma_first_ref_exists(s, k);
    }
}

/// `find_ref` gives the first position where `$` is directly followed by
/// `{`, whatever lone `$` or `{` come before it, and `None` exactly when no
/// `$` is followed by `{`.
pub proof fn law_find_ref(s: Seq<char>)
    ensures
        forall|i: int|
            #![trigger s[i]]
            find_ref(s) == Some(i) <==> (0 <= i && i + 1 < s.len() && s[i] == '$' && s[i + 1] == '{'
                && forall|j: int| 0 <= j < i ==> !(#[trigger] s[j] == '$' && s[j + 1] == '{')),
        find_ref(s) is None <==> forall|j: int|
            0 <= j && j + 1 < s.len() ==> !(#[trigger] s[j] == '$' && s[j + 1] == '{'),
{
    if exists|i: int| first_ref_at(s, i) {
        let k = choose|i: int| first_ref_at(s, i);
        assert forall|i: int|
            #![trigger s[i]]
            (0 <= i && i + 1 < s.len() && s[i] == '$' && s[i + 1] == '{' && forall|j: int|
                0 <= j < i ==> !(#[trigger] s[j] == '$' && s[j + 1] == '{')) implies i == k by {
            if i < k {
                assert(!opens_ref(s, i));
            } else if i > k {
                assert(opens_ref(s, k));
            }
        }
        assert(opens_ref(s, k));
        assert forall|i: int| #![trigger s[i]] find_ref(s) == Some(i) implies (forall|j: int|
            0 <= j < i ==> !(#[trigger] s[j] == '$' && s[j + 1] == '{')) by {
            assert forall|j: int| 0 <= j < i implies !(#[trigger] s[j] == '$' && s[j + 1] == '{') by {
                assert(!opens_ref(s, j));
            }
        }
    } else {
        assert forall|j: int| 0 <= j && j + 1 < s.len() implies !(#[trigger] s[j] == '$' && s[j + 1] == '{') by {
            if s[j] == '$' && s[j + 1] == '{' {
                lemma_first_ref_exists(s, j);
            }
        }
    }
}

/// A value made of literal text `x` (holding no `${`) and one reference
/// `${y}` (with no `}` in `y`) gives the text as it stands, when there is
/// any, and then a reference to the trimmed name `y`; a lone `$` or `{` in
/// the text is just text.
pub proof fn law_value_with_one_reference(x: Seq<char>, y: Seq<char>)
    requires
        forall|j: int| 0 <= j && j + 1 < x.len() ==> !(#[trigger] x[j] == '$' && x[j + 1] == '{'),
        forall|j: int| 0 <= j < y.len() ==> y[j] != '}',
    ensures
        value_tokens(x + seq!['$', '{'] + y + seq!['}']) == Ok::<Seq<TokenView>, TokenizeError>(
            if x.len() == 0 {
                seq![TokenView::Ref(trim(y))]
            } else {
                seq![TokenView::Text(x), TokenView::Ref(trim(y))]
            },
        ),
{
    let r = x + seq!['$', '{'] + y + seq!['}'];
    let n = x.len() as int;
    law_find_ref(r);
    assert(r[n] == '$' && r[n + 1] == '{');
    assert forall|j: int| 0 <= j < n implies !(#[trigger] r[j] == '$' && r[j + 1] == '{') by {
        assert(r[j] == x[j]);
        if j + 1 < n {
            assert(r[j + 1] == x[j + 1]);
        } else {
            assert(r[j + 1] == '$');
        }
    }
    assert(find_ref(r) == Some(n));
    let rest = r.subrange(n, r.len() as int);
    assert(rest =~= seq!['$', '{'] + y + seq!['}']);
    let e: int = y.len() as int + 2;
    law_find_char(rest, '}');
    assert(rest[e] == '}');
    assert forall|j: int| 0 <= j < e implies rest[j] != '}' by {
        if j >= 2 {
            assert(rest[j] == y[j - 2]);
        }
    }
    assert(find_char(rest, '}') == Some(e));
    assert(rest.subrange(2, e) =~= y);
    assert(rest.subrange(e + 1, rest.len() as int) =~= Seq::<char>::empty());
    assert(r.subrange(0, n) =~= x);
    let empty = Seq::<char>::empty();
    law_find_ref(empty);
    assert(value_tokens(empty) == Ok::<Seq<TokenView>, TokenizeError>(seq![]));
    let pre: Seq<TokenView> = if x.len() == 0 {
        seq![]
    } else {
        seq![TokenView::Text(x)]
    };
    assert(pre + seq![TokenView::Ref(trim(y))] + Seq::<TokenView>::empty() =~= if x.len() == 0 {
        seq![TokenView::Ref(trim(y))]
    } else {
        seq![TokenView::Text(x), TokenView::Ref(trim(y))]
    });
}

/// `trim` removes exactly the whitespace at both ends: it is a contiguous
/// part of `s`, everything before and after it is whitespace, and, when it
/// is not empty, it neither starts nor ends with whitespace.
pub proof fn law_trim(s: Seq<char>)
    ensures
        exists|lo: int, hi: int|
            #![trigger s.subrange(lo, hi)]
            0 <= lo <= hi <= s.len() && trim(s) == s.subrange(lo, hi) && (forall|j: int|
                0 <= j < lo ==> is_ws(#[trigger] s[j])) && (forall|j: int|
                hi <= j < s.len() ==> is_ws(#[trigger] s[j])),
        trim(s).len() > 0 ==> !is_ws(trim(s)[0]) && !is_ws(trim(s).last()),
{
    let (lo, a) = lemma_trim_start(s);
    let hi = lo + lemma_trim_end(a);
    assert(a.subrange(0, hi - lo) =~= s.subrange(lo, hi));
    assert forall|j: int| hi <= j < s.len() implies is_ws(#[trigger] s[j]) by {
        assert(s[j] == a[j - lo]);
    }
    assert(trim(s) == s.subrange(lo, hi));
    if trim(s).len() > 0 {
        assert(trim(s)[0] == a[0]);
        assert(trim(s).last() == a[hi - lo - 1]);
    }
}

/// `trim_start(s)` is `s` from the first non-whitespace character on.
proof fn lemma_trim_start(s: Seq<char>) -> (r: (int, Seq<char>))
    ensures
        0 <= r.0 <= s.len(),
        r.1 == s.subrange(r.0, s.len() as int),
        r.1 == trim_start(s),
        forall|j: int| 0 <= j < r.0 ==> is_ws(#[trigger] s[j]),
        r.1.len() > 0 ==> !is_ws(r.1[0]),
    decreases s.len(),
{
    if s.len() > 0 && is_ws(s[0]) {
        let (k, rest) = lemma_trim_start(s.drop_first());
        assert(rest =~= s.subrange(k + 1, s.len() as int));
        assert forall|j: int| 0 <= j < k + 1 implies is_ws(#[trigger] s[j]) by {
            if j > 0 {
                assert(s[j] == s.drop_first()[j - 1]);
            }
        }
        (k + 1, rest)
    } else {
        assert(s.subrange(0, s.len() as int) =~= s);
        (0, s)
    }
}

/// `trim_end(s)` is `s` up to its last non-whitespace character; returns
/// the length kept.
proof fn lemma_trim_end(s: Seq<char>) -> (k: int)
    ensures
        0 <= k <= s.len(),
        trim_end(s) == s.subrange(0, k),
        forall|j: int| k <= j < s.len() ==> is_ws(#[trigger] s[j]),
        k > 0 ==> !is_ws(s[k - 1]),
    decreases s.len(),
{
    if s.len() > 0 && is_ws(s.last()) {
        let k = lemma_trim_end(s.drop_last());
        assert(s.drop_last().subrange(0, k) =~= s.subrange(0, k));
        assert forall|j: int| k <= j < s.len() implies is_ws(#[trigger] s[j]) by {
            if j < s.len() - 1 {
                assert(s[j] == s.drop_last()[j]);
            }
        }
        k
    } else {
        assert(s.subrange(0, s.len() as int) =~= s);
        s.len() as int
    }
}

/// A value with no `${` in it is one literal text, kept as it stands (none
/// when the value is empty), whatever lone `$`, `{` or `}` it holds.
pub proof fn law_value_without_reference(x: Seq<char>)
    requires
        forall|j: int| 0 <= j && j + 1 < x.len() ==> !(#[trigger] x[j] == '$' && x[j + 1] == '{'),
    ensures
        value_tokens(x) == Ok::<Seq<TokenView>, TokenizeError>(
            if x.len() == 0 {
                seq![]
            } else {
                seq![TokenView::Text(x)]
            },
        ),
{
    law_find_ref(x);
}

} // verus!
