//! The delimited-directive resolvers.
//!
//! Component text may hold two kinds of inline directives: `[name]` color
//! markup and `{name}` placeholders.  Both follow one scanning grammar that
//! differs only in its delimiter pair: a directive opens at an unescaped
//! opening delimiter and runs to the nearest closing delimiter.  A run of
//! paired backslashes directly before a delimiter is consumed as escaping;
//! an odd backslash leaves the delimiter literal.  An unterminated opening
//! delimiter passes through as literal text, and so does every character
//! outside a directive.

use vstd::prelude::*;

verus! {

/// One token of the scanning grammar: a literal stretch of text, or the
/// name carried by a directive.
pub enum TokV {
    Lit(Seq<char>),
    Dir(Seq<char>),
}

/// An executable token; its view is a [`TokV`].
pub enum Tok {
    Lit(String),
    Dir(String),
}

impl View for Tok {
    type V = TokV;

    open spec fn view(&self) -> TokV {
        match self {
            Tok::Lit(s) => TokV::Lit(s@),
            Tok::Dir(s) => TokV::Dir(s@),
        }
    }
}

/// The views of a token list.
pub open spec fn views_of(ts: Seq<Tok>) -> Seq<TokV> {
    ts.map_values(|t: Tok| t@)
}

/// Index of the first occurrence of `c` in `s` at or after `i`, or
/// `s.len()` if there is none.
pub open spec fn find_from(s: Seq<char>, c: char, i: int) -> int
    decreases s.len() - i,
{
    if i >= s.len() {
        s.len() as int
    } else if s[i] == c {
        i
    } else {
        find_from(s, c, i + 1)
    }
}

/// Length of the run of backslashes that ends just before position `p`,
/// never reaching back before `lo`.
pub open spec fn run_back(s: Seq<char>, p: int, lo: int) -> nat
    decreases p - lo,
{
    if p <= lo {
        0
    } else if s[p - 1] == '\\' {
        run_back(s, p - 1, lo) + 1
    } else {
        0
    }
}

pub proof fn lemma_find_from_ge(s: Seq<char>, c: char, i: int)
    requires
        i <= s.len(),
    ensures
        i <= find_from(s, c, i) <= s.len(),
    decreases s.len() - i,
{
    if i < s.len() && s[i] != c {
        lemma_find_from_ge(s, c, i + 1);
    }
}

pub proof fn lemma_find_from(s: Seq<char>, c: char, i: int)
    requires
        0 <= i <= s.len(),
    ensures
        i <= find_from(s, c, i) <= s.len(),
        find_from(s, c, i) < s.len() ==> s[find_from(s, c, i)] == c,
        forall|j: int| i <= j < find_from(s, c, i) ==> s[j] != c,
    decreases s.len() - i,
{
    if i < s.len() && s[i] != c {
        lemma_find_from(s, c, i + 1);
    }
}

pub proof fn lemma_find_from_is(s: Seq<char>, c: char, i: int, k: int)
    requires
        0 <= i <= k <= s.len(),
        forall|j: int| i <= j < k ==> s[j] != c,
        k < s.len() ==> s[k] == c,
    ensures
        find_from(s, c, i) == k,
    decreases k - i,
{
    if i < k {
        lemma_find_from_is(s, c, i + 1, k);
    }
}

pub proof fn lemma_run_back_is(s: Seq<char>, p: int, lo: int, k: int)
    requires
        lo <= k <= p,
        forall|j: int| k <= j < p ==> s[j] == '\\',
        k > lo ==> s[k - 1] != '\\',
    ensures
        run_back(s, p, lo) == p - k,
    decreases p - k,
{
    if k < p {
        lemma_run_back_is(s, p - 1, lo, k);
    }
}

/// The token list of `s` from position `i` on, under the delimiter pair
/// `open`/`close`.
pub open spec fn toks_from(s: Seq<char>, open: char, close: char, i: int) -> Seq<TokV>
    decreases s.len() - i,
    via toks_from_dec
{
    if i >= s.len() {
        Seq::empty()
    } else {
        let p = find_from(s, open, i);
        if p >= s.len() {
            seq![TokV::Lit(s.subrange(i, s.len() as int))]
        } else {
            let n = run_back(s, p, i);
            if n % 2 == 1 {
                seq![TokV::Lit(s.subrange(i, p + 1))] + toks_from(s, open, close, p + 1)
            } else {
                let q = find_from(s, close, p + 1);
                if q >= s.len() {
                    seq![TokV::Lit(s.subrange(i, p + 1))] + toks_from(s, open, close, p + 1)
                } else {
                    let r = run_back(s, q, p + 1);
                    let name = s.subrange(p + 1, q - 2 * ((r / 2) as int));
                    seq![TokV::Lit(s.subrange(i, p - n)), TokV::Dir(name)] + toks_from(
                        s,
                        open,
                        close,
                        q + 1,
                    )
                }
            }
        }
    }
}

#[via_fn]
proof fn toks_from_dec(s: Seq<char>, open: char, close: char, i: int) {
    if i < s.len() {
        lemma_find_from_ge(s, open, i);
        let p = find_from(s, open, i);
        if p < s.len() {
            lemma_find_from_ge(s, close, p + 1);
        }
    }
}

/// The token list of a whole string.
pub open spec fn toks(s: Seq<char>, open: char, close: char) -> Seq<TokV> {
    toks_from(s, open, close, 0)
}

/// Whether `c` occurs in `s`.
pub open spec fn has_char(s: Seq<char>, c: char) -> bool {
    exists|i: int| 0 <= i < s.len() && s[i] == c
}

/// Equality of two string slices, decided character by character.
fn str_eq(a: &str, b: &str) -> (r: bool)
    ensures
        r == (a@ == b@),
{
    let an = a.unicode_len();
    let bn = b.unicode_len();
    if an != bn {
        return false;
    }
    let mut k: usize = 0;
    while k < an
        invariant
            k <= an,
            an == a@.len(),
            an == b@.len(),
            forall|j: int| 0 <= j < k ==> a@[j] == b@[j],
        decreases an - k,
    {
        if a.get_char(k) != b.get_char(k) {
            return false;
        }
        k += 1;
    }
    proof {
        assert(a@ =~= b@);
    }
    true
}

/// Index of the first occurrence of `c` in `text` at or after `from`, or
/// the text's length if there is none.
fn find_char(text: &str, c: char, from: usize) -> (r: usize)
    requires
        from <= text@.len(),
    ensures
        r == find_from(text@, c, from as int),
        from <= r <= text@.len(),
        r < text@.len() ==> text@[r as int] == c,
{
    let n = text.unicode_len();
    let mut k = from;
    while k < n
        invariant
            from <= k <= n,
            n == text@.len(),
            forall|j: int| from <= j <= k - 1 ==> text@[j] != c,
        decreases n - k,
    {
        if text.get_char(k) == c {
            proof {
                lemma_find_from_is(text@, c, from as int, k as int);
            }
            return k;
        }
        k += 1;
    }
    proof {
        lemma_find_from_is(text@, c, from as int, n as int);
    }
    n
}

/// Length of the backslash run that ends just before `p`, never reaching
/// back before `lo`.
fn run_before(text: &str, p: usize, lo: usize) -> (r: usize)
    requires
        lo <= p <= text@.len(),
    ensures
        r == run_back(text@, p as int, lo as int),
        r <= p - lo,
{
    let mut k = p;
    while k > lo && text.get_char(k - 1) == '\\'
        invariant
            lo <= k <= p <= text@.len(),
            forall|j: int| k <= j < p ==> text@[j] == '\\',
        decreases k,
    {
        k -= 1;
    }
    proof {
        lemma_run_back_is(text@, p as int, lo as int, k as int);
    }
    p - k
}

/// Split `text` into literal and directive tokens under the delimiter
/// pair `open`/`close`.
pub fn scan_tokens(text: &str, open: char, close: char) -> (r: Vec<Tok>)
    ensures
        views_of(r@) == toks(text@, open, close),
{
    let n = text.unicode_len();
    let mut out: Vec<Tok> = Vec::new();
    let mut i: usize = 0;
    while i < n
        invariant
            i <= n,
            n == text@.len(),
            views_of(out@) + toks_from(text@, open, close, i as int) =~= toks(
                text@,
                open,
                close,
            ),
        decreases n - i,
    {
        let ghost prev = out@;
        let ghost gi = i as int;
        let p = find_char(text, open, i);
        proof {
            lemma_find_from(text@, open, i as int);
        }
        if p >= n {
            out.push(Tok::Lit(text.substring_char(i, n).to_owned()));
            proof {
                assert(views_of(out@) =~= views_of(prev) + seq![
                    TokV::Lit(text@.subrange(gi, n as int)),
                ]);
            }
            i = n;
        } else {
            let bs = run_before(text, p, i);
            if bs % 2 == 1 {
                out.push(Tok::Lit(text.substring_char(i, p + 1).to_owned()));
                proof {
                    assert(views_of(out@) =~= views_of(prev) + seq![
                        TokV::Lit(text@.subrange(gi, p + 1)),
                    ]);
                }
                i = p + 1;
            } else {
                let q = find_char(text, close, p + 1);
                if q >= n {
                    out.push(Tok::Lit(text.substring_char(i, p + 1).to_owned()));
                    proof {
                        assert(views_of(out@) =~= views_of(prev) + seq![
                            TokV::Lit(text@.subrange(gi, p + 1)),
                        ]);
                    }
                    i = p + 1;
                } else {
                    let r = run_before(text, q, p + 1);
                    let name_end = q - 2 * (r / 2);
                    out.push(Tok::Lit(text.substring_char(i, p - bs).to_owned()));
                    out.push(Tok::Dir(text.substring_char(p + 1, name_end).to_owned()));
                    proof {
                        assert(views_of(out@) =~= views_of(prev) + seq![
                            TokV::Lit(text@.subrange(gi, p - bs)),
                            TokV::Dir(text@.subrange(p + 1, name_end as int)),
                        ]);
                    }
                    i = q + 1;
                }
            }
        }
        proof {
            assert(views_of(out@) + toks_from(text@, open, close, i as int) =~= views_of(prev)
                + toks_from(text@, open, close, gi));
        }
    }
    out
}

/// The token list of `s` from `i` on, when no opening delimiter occurs at
/// or after `i`: one literal token (or none, at the end of the string).
pub proof fn lemma_no_open_toks_from(s: Seq<char>, open: char, close: char, i: int)
    requires
        0 <= i <= s.len(),
        forall|j: int| i <= j < s.len() ==> s[j] != open,
    ensures
        i == s.len() ==> toks_from(s, open, close, i) =~= Seq::<TokV>::empty(),
        i < s.len() ==> toks_from(s, open, close, i) =~= seq![
            TokV::Lit(s.subrange(i, s.len() as int)),
        ],
{
    if i < s.len() {
        lemma_find_from_is(s, open, i, s.len() as int);
    }
}

/// A string without the opening delimiter scans to one literal token.
pub proof fn lemma_no_open_toks(s: Seq<char>, open: char, close: char)
    requires
        !has_char(s, open),
    ensures
        s.len() == 0 ==> toks(s, open, close) =~= Seq::<TokV>::empty(),
        s.len() > 0 ==> toks(s, open, close) =~= seq![TokV::Lit(s)],
{
    assert forall|j: int| 0 <= j < s.len() implies s[j] != open by {
        if s[j] == open {
            assert(has_char(s, open));
        }
    }
    lemma_no_open_toks_from(s, open, close, 0);
    if s.len() > 0 {
        assert(s.subrange(0, s.len() as int) =~= s);
    }
}

/// The escape sequence a color directive stands for: the standard eight
/// foreground codes, the reset for `_`, and nothing for an unknown name.
pub open spec fn color_code(name: Seq<char>) -> Seq<char> {
    if name == "black"@ {
        "\u{1b}[30m"@
    } else if name == "red"@ {
        "\u{1b}[31m"@
    } else if name == "green"@ {
        "\u{1b}[32m"@
    } else if name == "yellow"@ {
        "\u{1b}[33m"@
    } else if name == "blue"@ {
        "\u{1b}[34m"@
    } else if name == "magenta"@ {
        "\u{1b}[35m"@
    } else if name == "cyan"@ {
        "\u{1b}[36m"@
    } else if name == "white"@ {
        "\u{1b}[37m"@
    } else if name == "_"@ {
        "\u{1b}[0m"@
    } else {
        Seq::empty()
    }
}

/// What one token contributes to colorized text.
pub open spec fn tok_color(t: TokV) -> Seq<char> {
    match t {
        TokV::Lit(x) => x,
        TokV::Dir(nm) => color_code(nm),
    }
}

/// Colorized text of a token list.
pub open spec fn color_out(ts: Seq<TokV>) -> Seq<char>
    decreases ts.len(),
{
    if ts.len() == 0 {
        Seq::empty()
    } else {
        color_out(ts.drop_last()) + tok_color(ts.last())
    }
}

/// The colorized form of a string: every unescaped `[name]` directive
/// replaced by its escape sequence, everything else kept.
pub open spec fn colorized(s: Seq<char>) -> Seq<char> {
    color_out(toks(s, '[', ']'))
}

/// Plain text of a token list: directives contribute nothing.
pub open spec fn plain_out(ts: Seq<TokV>) -> Seq<char>
    decreases ts.len(),
{
    if ts.len() == 0 {
        Seq::empty()
    } else {
        plain_out(ts.drop_last()) + (match ts.last() {
            TokV::Lit(x) => x,
            TokV::Dir(_) => Seq::empty(),
        })
    }
}

/// A string with its color markup removed.
pub open spec fn stripped(s: Seq<char>) -> Seq<char> {
    plain_out(toks(s, '[', ']'))
}

/// The recognized placeholder names.
pub open spec fn is_ph_name(nm: Seq<char>) -> bool {
    nm == "uptime"@ || nm == "username"@ || nm == "hostname"@ || nm == "os"@ || nm == "memory"@
}

/// How many recognized placeholders a token list holds.
pub open spec fn ph_count(ts: Seq<TokV>) -> nat
    decreases ts.len(),
{
    if ts.len() == 0 {
        0
    } else {
        ph_count(ts.drop_last()) + (match ts.last() {
            TokV::Dir(nm) => if is_ph_name(nm) {
                1nat
            } else {
                0
            },
            TokV::Lit(x) => 0,
        })
    }
}

/// Placeholder-resolved text of a token list, the `k`-th recognized
/// placeholder replaced by `vals[k]`; unknown names contribute nothing.
pub open spec fn ph_out(ts: Seq<TokV>, vals: Seq<Seq<char>>) -> Seq<char>
    decreases ts.len(),
{
    if ts.len() == 0 {
        Seq::empty()
    } else {
        ph_out(ts.drop_last(), vals) + (match ts.last() {
            TokV::Lit(x) => x,
            TokV::Dir(nm) => if is_ph_name(nm) {
                let k = ph_count(ts.drop_last());
                if k < vals.len() {
                    vals[k as int]
                } else {
                    Seq::empty()
                }
            } else {
                Seq::empty()
            },
        })
    }
}

/// `out` is a possible placeholder resolution of `text`: for some sequence
/// of values handed back by the system-facts queries, one per recognized
/// placeholder, `out` is `text` with each placeholder replaced by its value.
pub open spec fn is_load_of(text: Seq<char>, out: Seq<char>) -> bool {
    exists|vals: Seq<Seq<char>>|
        vals.len() == ph_count(toks(text, '{', '}')) && out == ph_out(
            toks(text, '{', '}'),
            vals,
        )
}

/// Values past the placeholder count do not change the resolved text.
pub proof fn lemma_ph_out_extend(ts: Seq<TokV>, vals: Seq<Seq<char>>, more: Seq<Seq<char>>)
    requires
        ph_count(ts) <= vals.len(),
    ensures
        ph_out(ts, vals + more) == ph_out(ts, vals),
    decreases ts.len(),
{
    if ts.len() > 0 {
        lemma_ph_out_extend(ts.drop_last(), vals, more);
        match ts.last() {
            TokV::Dir(nm) => {
                if is_ph_name(nm) {
                    let k = ph_count(ts.drop_last());
                    assert(k < vals.len());
                    assert((vals + more)[k as int] == vals[k as int]);
                }
            },
            TokV::Lit(x) => {},
        }
    }
}

/// Text without color markup characters colorizes to itself.
pub proof fn lemma_colorize_identity(s: Seq<char>)
    requires
        !has_char(s, '['),
    ensures
        colorized(s) == s,
        stripped(s) == s,
{
    lemma_no_open_toks(s, '[', ']');
    if s.len() == 0 {
        assert(colorized(s) =~= s);
        assert(stripped(s) =~= s);
    } else {
        let ts = toks(s, '[', ']');
        assert(ts =~= seq![TokV::Lit(s)]);
        assert(ts.drop_last() =~= Seq::<TokV>::empty());
        assert(color_out(ts.drop_last()) == Seq::<char>::empty());
        assert(plain_out(ts.drop_last()) == Seq::<char>::empty());
        assert(colorized(s) =~= s);
        assert(stripped(s) =~= s);
    }
}

/// Text without placeholder markup characters resolves to itself, whatever
/// the system facts are.
pub proof fn lemma_placeholder_identity(s: Seq<char>)
    requires
        !has_char(s, '{'),
    ensures
        ph_count(toks(s, '{', '}')) == 0,
        forall|vals: Seq<Seq<char>>| ph_out(toks(s, '{', '}'), vals) == s,
        is_load_of(s, s),
{
    lemma_no_open_toks(s, '{', '}');
    if s.len() == 0 {
        assert(ph_count(toks(s, '{', '}')) == 0);
        assert forall|vals: Seq<Seq<char>>| ph_out(toks(s, '{', '}'), vals) == s by {
            assert(ph_out(toks(s, '{', '}'), vals) =~= s);
        }
    } else {
        let ts = toks(s, '{', '}');
        assert(ts =~= seq![TokV::Lit(s)]);
        assert(ts.drop_last() =~= Seq::<TokV>::empty());
        assert(ph_count(ts) == ph_count(ts.drop_last()));
        assert(ph_count(ts.drop_last()) == 0);
        assert forall|vals: Seq<Seq<char>>| ph_out(toks(s, '{', '}'), vals) == s by {
            assert(ph_out(ts.drop_last(), vals) =~= Seq::<char>::empty());
            assert(ph_out(ts, vals) =~= s);
        }
    }
    let vals = Seq::<Seq<char>>::empty();
    assert(vals.len() == ph_count(toks(s, '{', '}')) && s == ph_out(toks(s, '{', '}'), vals));
}

/// Both resolvers are the identity on text free of their four markup
/// characters.
pub proof fn lemma_resolvers_identity(s: Seq<char>)
    requires
        !has_char(s, '['),
        !has_char(s, ']'),
        !has_char(s, '{'),
        !has_char(s, '}'),
    ensures
        colorized(s) == s,
        is_load_of(s, s),
        forall|vals: Seq<Seq<char>>| ph_out(toks(s, '{', '}'), vals) == s,
{
    lemma_colorize_identity(s);
    lemma_placeholder_identity(s);
}

/// Resolving placeholders a second time changes nothing, once the first
/// resolution left no placeholder markup behind: the resolved text stands,
/// whatever values the second pass would fetch.
pub proof fn lemma_placeholder_idempotent(text: Seq<char>, vals: Seq<Seq<char>>)
    requires
        vals.len() == ph_count(toks(text, '{', '}')),
        !has_char(ph_out(toks(text, '{', '}'), vals), '{'),
        !has_char(ph_out(toks(text, '{', '}'), vals), '}'),
    ensures
        forall|vals2: Seq<Seq<char>>|
            ph_out(toks(ph_out(toks(text, '{', '}'), vals), '{', '}'), vals2) == ph_out(
                toks(text, '{', '}'),
                vals,
            ),
{
    lemma_placeholder_identity(ph_out(toks(text, '{', '}'), vals));
}

/// One token extends colorized text by what that token stands for.
proof fn lemma_color_step(all: Seq<TokV>, k: int)
    requires
        0 <= k < all.len(),
    ensures
        color_out(all.take(k + 1)) == color_out(all.take(k)) + tok_color(all[k]),
{
    assert(all.take(k + 1).drop_last() =~= all.take(k));
    assert(all.take(k + 1).last() == all[k]);
}

/// A literal token extends resolved text by itself and holds no
/// placeholder.
proof fn lemma_ph_step_lit(all: Seq<TokV>, k: int, vals: Seq<Seq<char>>, x: Seq<char>)
    requires
        0 <= k < all.len(),
        all[k] == TokV::Lit(x),
    ensures
        ph_count(all.take(k + 1)) == ph_count(all.take(k)),
        ph_out(all.take(k + 1), vals) == ph_out(all.take(k), vals) + x,
{
    assert(all.take(k + 1).drop_last() =~= all.take(k));
    assert(all.take(k + 1).last() == all[k]);
}

/// A directive token consumes the next value when its name is recognized
/// and contributes nothing otherwise.
proof fn lemma_ph_step_dir(all: Seq<TokV>, k: int, vals: Seq<Seq<char>>, nm: Seq<char>, v: Seq<char>)
    requires
        0 <= k < all.len(),
        all[k] == TokV::Dir(nm),
        vals.len() == ph_count(all.take(k)),
    ensures
        is_ph_name(nm) ==> ph_count(all.take(k + 1)) == vals.len() + 1 && ph_out(
            all.take(k + 1),
            vals.push(v),
        ) == ph_out(all.take(k), vals) + v,
        !is_ph_name(nm) ==> ph_count(all.take(k + 1)) == vals.len() && ph_out(
            all.take(k + 1),
            vals,
        ) == ph_out(all.take(k), vals),
{
    assert(all.take(k + 1).drop_last() =~= all.take(k));
    assert(all.take(k + 1).last() == all[k]);
    if is_ph_name(nm) {
        assert(vals.push(v) =~= vals + seq![v]);
        lemma_ph_out_extend(all.take(k), vals, seq![v]);
        assert((vals.push(v))[vals.len() as int] == v);
    }
}

/// Append the escape sequence a color directive stands for; an unknown
/// name appends nothing.
fn push_color(out: &mut String, name: &str)
    ensures
        final(out)@ == old(out)@ + color_code(name@),
{
    if str_eq(name, "black") {
        out.append("\u{1b}[30m");
    } else if str_eq(name, "red") {
        out.append("\u{1b}[31m");
    } else if str_eq(name, "green") {
        out.append("\u{1b}[32m");
    } else if str_eq(name, "yellow") {
        out.append("\u{1b}[33m");
    } else if str_eq(name, "blue") {
        out.append("\u{1b}[34m");
    } else if str_eq(name, "magenta") {
        out.append("\u{1b}[35m");
    } else if str_eq(name, "cyan") {
        out.append("\u{1b}[36m");
    } else if str_eq(name, "white") {
        out.append("\u{1b}[37m");
    } else if str_eq(name, "_") {
        out.append("\u{1b}[0m");
    } else {
        proof {
            assert(old(out)@ + color_code(name@) =~= old(out)@);
        }
    }
}

/// Replace every unescaped `[name]` directive in `text` by its escape
/// sequence; everything else, unknown names' directives aside, stays.
pub fn colorize(text: &str) -> (r: String)
    ensures
        r@ == colorized(text@),
{
    let toks_v = scan_tokens(text, '[', ']');
    let mut out = String::new();
    let mut k: usize = 0;
    while k < toks_v.len()
        invariant
            k <= toks_v@.len(),
            views_of(toks_v@) == toks(text@, '[', ']'),
            out@ == color_out(views_of(toks_v@).take(k as int)),
        decreases toks_v@.len() - k,
    {
        proof {
            lemma_color_step(views_of(toks_v@), k as int);
            assert(views_of(toks_v@)[k as int] == toks_v@[k as int]@);
        }
        match &toks_v[k] {
            Tok::Lit(s) => {
                out.append(s.as_str());
            },
            Tok::Dir(nm) => {
                push_color(&mut out, nm.as_str());
            },
        }
        k += 1;
    }
    proof {
        assert(views_of(toks_v@).take(toks_v@.len() as int) =~= views_of(toks_v@));
    }
    out
}

/// Replace every unescaped `{name}` placeholder in `text` by a value
/// fetched from the corresponding system-facts query, one query per
/// occurrence, in scan order; unknown names' placeholders are dropped.
pub fn load(text: &str) -> (r: String)
    ensures
        is_load_of(text@, r@),
{
    let toks_v = scan_tokens(text, '{', '}');
    let mut out = String::new();
    let ghost mut vals: Seq<Seq<char>> = Seq::empty();
    let mut k: usize = 0;
    while k < toks_v.len()
        invariant
            k <= toks_v@.len(),
            views_of(toks_v@) == toks(text@, '{', '}'),
            vals.len() == ph_count(views_of(toks_v@).take(k as int)),
            out@ == ph_out(views_of(toks_v@).take(k as int), vals),
        decreases toks_v@.len() - k,
    {
        let ghost all = views_of(toks_v@);
        let ghost prev_vals = vals;
        proof {
            assert(all[k as int] == toks_v@[k as int]@);
        }
        match &toks_v[k] {
            Tok::Lit(s) => {
                out.append(s.as_str());
                proof {
                    lemma_ph_step_lit(all, k as int, vals, s@);
                }
            },
            Tok::Dir(nm) => {
                let fetched: Option<String> = if str_eq(nm.as_str(), "uptime") {
                    Some(crate::module::uptime::fetch())
                } else if str_eq(nm.as_str(), "username") {
                    let h = crate::module::host::fetch();
                    Some(h[0].clone())
                } else if str_eq(nm.as_str(), "hostname") {
                    let h = crate::module::host::fetch();
                    Some(h[1].clone())
                } else if str_eq(nm.as_str(), "os") {
                    Some(crate::module::os::fetch())
                } else if str_eq(nm.as_str(), "memory") {
                    Some(crate::module::memory::fetch())
                } else {
                    None
                };
                match fetched {
                    Some(v) => {
                        out.append(v.as_str());
                        proof {
                            lemma_ph_step_dir(all, k as int, prev_vals, nm@, v@);
                            vals = prev_vals.push(v@);
                        }
                    },
                    None => {
                        proof {
                            lemma_ph_step_dir(all, k as int, prev_vals, nm@, Seq::empty());
                        }
                    },
                }
            },
        }
        k += 1;
    }
    proof {
        assert(views_of(toks_v@).take(toks_v@.len() as int) =~= views_of(toks_v@));
        assert(vals.len() == ph_count(toks(text@, '{', '}')) && out@ == ph_out(
            toks(text@, '{', '}'),
            vals,
        ));
        assert(is_load_of(text@, out@));
    }
    out
}

/// A doubled backslash directly before the bracket is consumed as
/// escaping, not reproduced, and the directive still fires.
pub proof fn lemma_even_escape_fires(s1: Seq<char>, name: Seq<char>, s2: Seq<char>)
    requires
        !has_char(s1, '['),
        s1.len() > 0 ==> s1[s1.len() - 1] != '\\',
        !has_char(name, '['),
        !has_char(name, ']'),
        name.len() > 0 ==> name[name.len() - 1] != '\\',
        !has_char(s2, '['),
    ensures
        colorized(s1 + seq!['\\', '\\', '['] + name + seq![']'] + s2) == s1 + color_code(name)
            + s2,
{
    let s = s1 + seq!['\\', '\\', '['] + name + seq![']'] + s2;
    let p = s1.len() as int + 2;
    let q = p + 1 + name.len() as int;
    assert forall|j: int| 0 <= j < s.len() implies (s[j] == '[' <==> j == p) by {
        if j < s1.len() {
            assert(s[j] == s1[j]);
            if s[j] == '[' {
                assert(has_char(s1, '['));
            }
        } else if p < j < q {
            assert(s[j] == name[j - p - 1]);
            if s[j] == '[' {
                assert(has_char(name, '['));
            }
        } else if j > q {
            assert(s[j] == s2[j - q - 1]);
            if s[j] == '[' {
                assert(has_char(s2, '['));
            }
        }
    }
    lemma_find_from_is(s, '[', 0, p);
    assert(run_back(s, p - 2, 0) == 0);
    assert(run_back(s, p - 1, 0) == 1);
    assert(run_back(s, p, 0) == 2);
    assert forall|j: int| p + 1 <= j < q implies s[j] != ']' by {
        assert(s[j] == name[j - p - 1]);
        if s[j] == ']' {
            assert(has_char(name, ']'));
        }
    }
    lemma_find_from_is(s, ']', p + 1, q);
    assert(run_back(s, q, p + 1) == 0);
    let nm = s.subrange(p + 1, q);
    assert(nm =~= name);
    assert forall|j: int| q + 1 <= j < s.len() implies s[j] != '[' by {}
    lemma_no_open_toks_from(s, '[', ']', q + 1);
    assert(s.subrange(0, p - 2) =~= s1);
    if q + 1 == s.len() {
        let ts = toks(s, '[', ']');
        assert(ts =~= seq![TokV::Lit(s1), TokV::Dir(name)]);
        let t1 = ts.drop_last();
        assert(t1 =~= seq![TokV::Lit(s1)]);
        assert(t1.drop_last() =~= Seq::<TokV>::empty());
        assert(color_out(t1.drop_last()) == Seq::<char>::empty());
        assert(color_out(t1) == Seq::<char>::empty() + s1);
        assert(color_out(ts) == color_out(t1) + color_code(name));
        assert(s2 =~= Seq::<char>::empty());
        assert(color_out(ts) =~= s1 + color_code(name) + s2);
    } else {
        assert(s.subrange(q + 1, s.len() as int) =~= s2);
        let ts = toks(s, '[', ']');
        assert(ts =~= seq![TokV::Lit(s1), TokV::Dir(name), TokV::Lit(s2)]);
        let t2 = ts.drop_last();
        assert(t2 =~= seq![TokV::Lit(s1), TokV::Dir(name)]);
        let t1 = t2.drop_last();
        assert(t1 =~= seq![TokV::Lit(s1)]);
        assert(t1.drop_last() =~= Seq::<TokV>::empty());
        assert(color_out(t1.drop_last()) == Seq::<char>::empty());
        assert(color_out(t1) == Seq::<char>::empty() + s1);
        assert(color_out(t2) == color_out(t1) + color_code(name));
        assert(color_out(ts) == color_out(t2) + s2);
        assert(color_out(ts) =~= s1 + color_code(name) + s2);
    }
}

/// An unpaired backslash leaves the bracket literal and unresolved: the
/// whole text passes through unchanged.
pub proof fn lemma_odd_escape_literal(s1: Seq<char>, rest: Seq<char>)
    requires
        !has_char(s1, '['),
        s1.len() > 0 ==> s1[s1.len() - 1] != '\\',
        !has_char(rest, '['),
    ensures
        colorized(s1 + seq!['\\', '['] + rest) == s1 + seq!['\\', '['] + rest,
{
    let s = s1 + seq!['\\', '['] + rest;
    let p = s1.len() as int + 1;
    assert forall|j: int| 0 <= j < s.len() implies (s[j] == '[' <==> j == p) by {
        if j < s1.len() {
            assert(s[j] == s1[j]);
            if s[j] == '[' {
                assert(has_char(s1, '['));
            }
        } else if j > p {
            assert(s[j] == rest[j - p - 1]);
            if s[j] == '[' {
                assert(has_char(rest, '['));
            }
        }
    }
    lemma_find_from_is(s, '[', 0, p);
    assert(run_back(s, p - 1, 0) == 0);
    assert(run_back(s, p, 0) == 1);
    assert forall|j: int| p + 1 <= j < s.len() implies s[j] != '[' by {}
    lemma_no_open_toks_from(s, '[', ']', p + 1);
    assert(s.subrange(0, p + 1) =~= s1 + seq!['\\', '[']);
    if p + 1 == s.len() {
        let ts = toks(s, '[', ']');
        assert(ts =~= seq![TokV::Lit(s1 + seq!['\\', '['])]);
        assert(ts.drop_last() =~= Seq::<TokV>::empty());
        assert(color_out(ts.drop_last()) == Seq::<char>::empty());
        assert(rest =~= Seq::<char>::empty());
        assert(color_out(ts) =~= s);
    } else {
        assert(s.subrange(p + 1, s.len() as int) =~= rest);
        let ts = toks(s, '[', ']');
        assert(ts =~= seq![TokV::Lit(s1 + seq!['\\', '[']), TokV::Lit(rest)]);
        let t1 = ts.drop_last();
        assert(t1 =~= seq![TokV::Lit(s1 + seq!['\\', '['])]);
        assert(t1.drop_last() =~= Seq::<TokV>::empty());
        assert(color_out(t1.drop_last()) == Seq::<char>::empty());
        assert(color_out(t1) == Seq::<char>::empty() + (s1 + seq!['\\', '[']));
        assert(color_out(ts) == color_out(t1) + rest);
        assert(color_out(ts) =~= s);
    }
}

/// Backslash runs never outrun their window.
proof fn lemma_run_back_le(s: Seq<char>, p: int, lo: int)
    requires
        lo <= p,
    ensures
        run_back(s, p, lo) <= p - lo,
    decreases p - lo,
{
    if p > lo && s[p - 1] == '\\' {
        lemma_run_back_le(s, p - 1, lo);
    }
}

/// Searching past a prefix is searching the suffix.
proof fn lemma_find_from_shift(a: Seq<char>, b: Seq<char>, ch: char, k: int)
    requires
        0 <= k <= b.len(),
    ensures
        find_from(a + b, ch, a.len() + k) == a.len() + find_from(b, ch, k),
    decreases b.len() - k,
{
    if k < b.len() && b[k] != ch {
        lemma_find_from_shift(a, b, ch, k + 1);
    }
}

/// A backslash run within the suffix is the suffix's own run.
proof fn lemma_run_back_shift(a: Seq<char>, b: Seq<char>, p: int, lo: int)
    requires
        0 <= lo <= p <= b.len(),
    ensures
        run_back(a + b, a.len() + p, a.len() + lo) == run_back(b, p, lo),
    decreases p - lo,
{
    if p > lo && b[p - 1] == '\\' {
        lemma_run_back_shift(a, b, p - 1, lo);
    }
}

/// The scan from a position past a prefix sees only the suffix: its
/// tokens are the suffix's own tokens.
proof fn lemma_toks_shift(a: Seq<char>, b: Seq<char>, open: char, close: char, k: int)
    requires
        0 <= k <= b.len(),
    ensures
        toks_from(a + b, open, close, a.len() + k) == toks_from(b, open, close, k),
    decreases b.len() - k,
{
    let s = a + b;
    let i = a.len() + k;
    if k < b.len() {
        lemma_find_from_shift(a, b, open, k);
        lemma_find_from_ge(b, open, k);
        let p = find_from(b, open, k);
        if p >= b.len() {
            assert(s.subrange(i, s.len() as int) =~= b.subrange(k, b.len() as int));
            assert(toks_from(s, open, close, i) =~= toks_from(b, open, close, k));
        } else {
            lemma_run_back_shift(a, b, p, k);
            let n = run_back(b, p, k);
            if n % 2 == 1 {
                assert(s.subrange(i, a.len() + p + 1) =~= b.subrange(k, p + 1));
                lemma_toks_shift(a, b, open, close, p + 1);
                assert(toks_from(s, open, close, i) =~= toks_from(b, open, close, k));
            } else {
                lemma_find_from_shift(a, b, close, p + 1);
                lemma_find_from_ge(b, close, p + 1);
                let q = find_from(b, close, p + 1);
                if q >= b.len() {
                    assert(s.subrange(i, a.len() + p + 1) =~= b.subrange(k, p + 1));
                    lemma_toks_shift(a, b, open, close, p + 1);
                    assert(toks_from(s, open, close, i) =~= toks_from(b, open, close, k));
                } else {
                    lemma_run_back_shift(a, b, q, p + 1);
                    lemma_run_back_le(b, q, p + 1);
                    lemma_run_back_le(b, p, k);
                    let r = run_back(b, q, p + 1);
                    assert(s.subrange(i, a.len() + (p - n)) =~= b.subrange(k, p - n));
                    assert(s.subrange(a.len() + p + 1, a.len() + (q - 2 * ((r / 2) as int)))
                        =~= b.subrange(p + 1, q - 2 * ((r / 2) as int)));
                    lemma_toks_shift(a, b, open, close, q + 1);
                    assert(toks_from(s, open, close, i) =~= toks_from(b, open, close, k));
                }
            }
        }
    }
}

/// Colorized text of a concatenation is the concatenation of the parts'
/// colorized text.
proof fn lemma_color_out_concat(ts1: Seq<TokV>, ts2: Seq<TokV>)
    ensures
        color_out(ts1 + ts2) == color_out(ts1) + color_out(ts2),
    decreases ts2.len(),
{
    if ts2.len() == 0 {
        assert(ts1 + ts2 =~= ts1);
        assert(color_out(ts1) + color_out(ts2) =~= color_out(ts1));
    } else {
        lemma_color_out_concat(ts1, ts2.drop_last());
        assert((ts1 + ts2).drop_last() =~= ts1 + ts2.drop_last());
        assert((ts1 + ts2).last() == ts2.last());
        assert(color_out(ts1 + ts2) =~= color_out(ts1) + color_out(ts2));
    }
}

/// The given parts joined by `sep` between each two of them.
pub open spec fn joined(parts: Seq<Seq<char>>, sep: Seq<char>) -> Seq<char>
    decreases parts.len(),
{
    if parts.len() == 0 {
        Seq::empty()
    } else if parts.len() == 1 {
        parts[0]
    } else {
        joined(parts.drop_last(), sep) + sep + parts.last()
    }
}

/// Joining peels off its first part.
proof fn lemma_joined_first(parts: Seq<Seq<char>>, sep: Seq<char>)
    requires
        parts.len() >= 2,
    ensures
        joined(parts, sep) == parts.first() + sep + joined(parts.drop_first(), sep),
    decreases parts.len(),
{
    if parts.len() == 2 {
        assert(parts.drop_last() =~= seq![parts[0]]);
        assert(parts.drop_first() =~= seq![parts[1]]);
        assert(joined(parts.drop_last(), sep) == parts[0]);
        assert(joined(parts.drop_first(), sep) == parts[1]);
        assert(joined(parts, sep) =~= parts.first() + sep + joined(parts.drop_first(), sep));
    } else {
        lemma_joined_first(parts.drop_last(), sep);
        assert(parts.drop_last().first() == parts.first());
        assert(parts.drop_last().drop_first() =~= parts.drop_first().drop_last());
        assert(parts.drop_first().last() == parts.last());
        assert(joined(parts, sep) =~= parts.first() + sep + joined(parts.drop_first(), sep));
    }
}

/// Colorizing text whose brackets all spell resets replaces every reset
/// directive by the reset escape sequence and keeps everything else: the
/// bracket-free parts stand unchanged around each substitution.
pub proof fn lemma_reset_round_trip_many(parts: Seq<Seq<char>>)
    requires
        parts.len() >= 1,
        forall|i: int| 0 <= i < parts.len() ==> !has_char(#[trigger] parts[i], '['),
        forall|i: int|
            0 <= i < parts.len() - 1 ==> (parts[i].len() > 0 ==> #[trigger] parts[i][parts[i].len()
                - 1] != '\\'),
    ensures
        colorized(joined(parts, "[_]"@)) == joined(parts, "\u{1b}[0m"@),
    decreases parts.len(),
{
    reveal_strlit("[_]");
    reveal_strlit("_");
    reveal_strlit("\u{1b}[0m");
    reveal_strlit("black");
    reveal_strlit("red");
    reveal_strlit("green");
    reveal_strlit("yellow");
    reveal_strlit("blue");
    reveal_strlit("magenta");
    reveal_strlit("cyan");
    reveal_strlit("white");
    if parts.len() == 1 {
        lemma_colorize_identity(parts[0]);
    } else {
        lemma_joined_first(parts, "[_]"@);
        lemma_joined_first(parts, "\u{1b}[0m"@);
        let rest = joined(parts.drop_first(), "[_]"@);
        let s = joined(parts, "[_]"@);
        let head = parts.first() + "[_]"@;
        assert(s =~= head + rest);
        let p = parts.first().len() as int;
        assert forall|j: int| 0 <= j < p implies s[j] != '[' by {
            assert(s[j] == parts.first()[j]);
            if s[j] == '[' {
                assert(has_char(parts.first(), '['));
            }
        }
        lemma_find_from_is(s, '[', 0, p);
        assert(run_back(s, p, 0) == 0);
        lemma_find_from_is(s, ']', p + 1, p + 2);
        assert(run_back(s, p + 2, p + 1) == 0);
        let name = s.subrange(p + 1, p + 2);
        assert(name =~= "_"@);
        assert(toks(s, '[', ']') == seq![TokV::Lit(s.subrange(0, p)), TokV::Dir(name)] + toks_from(
            s,
            '[',
            ']',
            p + 3,
        ));
        assert(s.subrange(0, p) =~= parts.first());
        lemma_toks_shift(head, rest, '[', ']', 0);
        assert(toks_from(head + rest, '[', ']', p + 3) == toks_from(s, '[', ']', p + 3));
        assert(toks_from(s, '[', ']', p + 3) == toks(rest, '[', ']'));
        let front = seq![TokV::Lit(parts.first()), TokV::Dir(name)];
        assert(seq![TokV::Lit(s.subrange(0, p)), TokV::Dir(name)] =~= front);
        lemma_color_out_concat(front, toks(rest, '[', ']'));
        assert(front.drop_last() =~= seq![TokV::Lit(parts.first())]);
        assert(front.drop_last().drop_last() =~= Seq::<TokV>::empty());
        assert(color_out(front.drop_last().drop_last()) == Seq::<char>::empty());
        assert(color_out(front.drop_last()) == Seq::<char>::empty() + parts.first());
        assert(color_code(name) == "\u{1b}[0m"@);
        assert(color_out(front) =~= parts.first() + "\u{1b}[0m"@);
        assert forall|i: int| 0 <= i < parts.drop_first().len() implies !has_char(
            #[trigger] parts.drop_first()[i],
            '[',
        ) by {
            assert(parts.drop_first()[i] == parts[i + 1]);
        }
        assert forall|i: int|
            0 <= i < parts.drop_first().len() - 1 implies (parts.drop_first()[i].len() > 0
                ==> #[trigger] parts.drop_first()[i][parts.drop_first()[i].len() - 1]
                != '\\') by {
            assert(parts.drop_first()[i] == parts[i + 1]);
        }
        lemma_reset_round_trip_many(parts.drop_first());
        assert(colorized(s) =~= parts.first() + "\u{1b}[0m"@ + joined(
            parts.drop_first(),
            "\u{1b}[0m"@,
        ));
    }
}

/// Colorizing text whose only directive is a reset yields exactly the
/// reset escape sequence in place of `[_]`, with the surrounding text kept
/// whole.
pub proof fn lemma_reset_round_trip(s1: Seq<char>, s2: Seq<char>)
    requires
        !has_char(s1, '['),
        !has_char(s2, '['),
        s1.len() > 0 ==> s1[s1.len() - 1] != '\\',
    ensures
        colorized(s1 + "[_]"@ + s2) == s1 + "\u{1b}[0m"@ + s2,
{
    reveal_strlit("[_]");
    reveal_strlit("_");
    reveal_strlit("\u{1b}[0m");
    reveal_strlit("black");
    reveal_strlit("red");
    reveal_strlit("green");
    reveal_strlit("yellow");
    reveal_strlit("blue");
    reveal_strlit("magenta");
    reveal_strlit("cyan");
    reveal_strlit("white");
    let s = s1 + "[_]"@ + s2;
    let p = s1.len() as int;
    assert forall|j: int| 0 <= j < s.len() implies (s[j] == '[' <==> j == p) by {
        if j < p {
            assert(s[j] == s1[j]);
            if s[j] == '[' {
                assert(has_char(s1, '['));
            }
        } else if j > p + 2 {
            assert(s[j] == s2[j - p - 3]);
            if s[j] == '[' {
                assert(has_char(s2, '['));
            }
        }
    }
    lemma_find_from_is(s, '[', 0, p);
    assert(find_from(s, '[', 0) == p);
    let n = run_back(s, p, 0);
    assert(n == 0);
    lemma_find_from_is(s, ']', p + 1, p + 2);
    assert(find_from(s, ']', p + 1) == p + 2);
    assert(run_back(s, p + 2, p + 1) == 0);
    let name = s.subrange(p + 1, p + 2);
    assert(name =~= "_"@);
    assert forall|j: int| p + 3 <= j < s.len() implies s[j] != '[' by {}
    lemma_no_open_toks_from(s, '[', ']', p + 3);
    assert(s.subrange(0, p) =~= s1);
    assert(color_code(name) == "\u{1b}[0m"@);
    if p + 3 == s.len() {
        let ts = toks(s, '[', ']');
        assert(ts =~= seq![TokV::Lit(s1), TokV::Dir(name)]);
        let t1 = ts.drop_last();
        assert(t1 =~= seq![TokV::Lit(s1)]);
        assert(t1.drop_last() =~= Seq::<TokV>::empty());
        assert(color_out(t1.drop_last()) == Seq::<char>::empty());
        assert(color_out(t1) == Seq::<char>::empty() + s1);
        assert(color_out(ts) == color_out(t1) + "\u{1b}[0m"@);
        assert(s2 =~= Seq::<char>::empty());
        assert(color_out(ts) =~= s1 + "\u{1b}[0m"@ + s2);
    } else {
        let tail = s.subrange(p + 3, s.len() as int);
        assert(tail =~= s2);
        let ts = toks(s, '[', ']');
        assert(ts =~= seq![TokV::Lit(s1), TokV::Dir(name), TokV::Lit(s2)]);
        let t2 = ts.drop_last();
        assert(t2 =~= seq![TokV::Lit(s1), TokV::Dir(name)]);
        let t1 = t2.drop_last();
        assert(t1 =~= seq![TokV::Lit(s1)]);
        assert(t1.drop_last() =~= Seq::<TokV>::empty());
        assert(color_out(t1.drop_last()) == Seq::<char>::empty());
        assert(color_out(t1) == Seq::<char>::empty() + s1);
        assert(color_out(t2) == color_out(t1) + "\u{1b}[0m"@);
        assert(color_out(ts) == color_out(t2) + s2);
        assert(color_out(ts) =~= s1 + "\u{1b}[0m"@ + s2);
    }
}

} // verus!
