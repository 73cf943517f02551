//! Text the canvas handles: comment bodies with `#node` references, node
//! slugs, filter highlights and dangling-reference marks.

use vstd::prelude::*;
use vstd::string::StrSliceExecFns;
use vstd::string::StringExecFns;
use vstd::utf8::{encode_utf8, is_char_boundary};
use crate::doc::{node_slot, GraphDoc};

verus! {

broadcast use vstd::string::group_string_axioms;

// ---------------------------------------------------------------------------
// What std's Unicode tables answer
// ---------------------------------------------------------------------------

/// `char::is_alphanumeric` beyond ASCII: the Alphabetic or Numeric
/// property.
pub uninterp spec fn unicode_alphanumeric(c: char) -> bool;

/// `char::to_lowercase` beyond ASCII: the lowercase mapping of one
/// character.
pub uninterp spec fn unicode_lowercase_char(c: char) -> Seq<char>;

/// `str::to_lowercase`: the lowercase mapping of a whole string.
pub uninterp spec fn unicode_lowercase(s: Seq<char>) -> Seq<char>;

/// `str::to_uppercase`: the uppercase mapping of a whole string.
pub uninterp spec fn unicode_uppercase(s: Seq<char>) -> Seq<char>;

/// An ASCII character.
pub open spec fn is_ascii_char(c: char) -> bool {
    (c as u32) < 128
}

/// Alphabetic or Numeric: among ASCII exactly the letters and digits,
/// beyond it the Unicode property.
pub open spec fn alphanumeric(c: char) -> bool {
    if is_ascii_char(c) {
        ('a' <= c && c <= 'z') || ('A' <= c && c <= 'Z') || ('0' <= c && c <= '9')
    } else {
        unicode_alphanumeric(c)
    }
}

/// The lowercase mapping of one character: an ASCII capital becomes its
/// small letter, any other ASCII character stays, and beyond ASCII the
/// Unicode mapping applies.
pub open spec fn lowercase_of(c: char) -> Seq<char> {
    if is_ascii_char(c) {
        if 'A' <= c && c <= 'Z' {
            seq![((c as u32) + 32) as char]
        } else {
            seq![c]
        }
    } else {
        unicode_lowercase_char(c)
    }
}

/// The White_Space property: the ASCII tab, line feed, vertical tab, form
/// feed, carriage return and space, and NEL, NBSP, the Ogham space mark,
/// the spaces U+2000 to U+200A, the line and paragraph separators, the
/// narrow no-break space, the medium mathematical space and the ideographic
/// space.
pub open spec fn white_space(c: char) -> bool {
    let u = c as u32;
    (9 <= u && u <= 13) || u == 32 || u == 0x85 || u == 0xA0 || u == 0x1680 || (0x2000 <= u && u <= 0x200A)
        || u == 0x2028 || u == 0x2029 || u == 0x202F || u == 0x205F || u == 0x3000
}

/// Calls `char::is_alphanumeric`. Claimed: among ASCII characters exactly
/// the letters and digits are alphanumeric; beyond ASCII the answer is the
/// character's Alphabetic-or-Numeric property, named rather than tabulated.
#[verifier::external_body]
pub(crate) fn is_alphanumeric(c: char) -> (r: bool)
    ensures
        is_ascii_char(c) ==> r == (('a' <= c && c <= 'z') || ('A' <= c && c <= 'Z') || ('0' <= c && c <= '9')),
        !is_ascii_char(c) ==> r == unicode_alphanumeric(c),
{
    c.is_alphanumeric()
}

/// Whether `c` is whitespace, as `char::is_whitespace` answers it.
pub fn is_whitespace(c: char) -> (r: bool)
    ensures
        r == white_space(c),
{
    let u = c as u32;
    (9 <= u && u <= 13) || u == 32 || u == 0x85 || u == 0xA0 || u == 0x1680 || (0x2000 <= u && u <= 0x200A)
        || u == 0x2028 || u == 0x2029 || u == 0x202F || u == 0x205F || u == 0x3000
}

/// Calls `char::to_lowercase` and collects what it yields. Claimed: an
/// ASCII capital maps to its small letter and any other ASCII character to
/// itself; beyond ASCII the result is the character's lowercase mapping
/// (named, not tabulated), one or more characters long, as the
/// documentation says.
#[verifier::external_body]
pub(crate) fn lowercase_char(c: char) -> (r: Vec<char>)
    ensures
        is_ascii_char(c) && 'A' <= c && c <= 'Z' ==> r@ == seq![((c as u32) + 32) as char],
        is_ascii_char(c) && !('A' <= c && c <= 'Z') ==> r@ == seq![c],
        !is_ascii_char(c) ==> r@ == unicode_lowercase_char(c),
        r@.len() >= 1,
{
    c.to_lowercase().collect()
}

/// Calls `str::to_lowercase`. Claimed: the result is the string's
/// lowercase mapping, named rather than spelled out (it depends on context,
/// such as a final sigma).
#[verifier::external_body]
pub(crate) fn lowercase(s: &str) -> (r: String)
    ensures
        r@ == unicode_lowercase(s@),
{
    s.to_lowercase()
}

/// Calls `str::to_uppercase`. Claimed: the result is the string's
/// uppercase mapping, named rather than spelled out.
#[verifier::external_body]
pub(crate) fn uppercase(s: &str) -> (r: String)
    ensures
        r@ == unicode_uppercase(s@),
{
    s.to_uppercase()
}

/// Calls `String::push`. Claimed: the string gains `c` at its end and is
/// otherwise unchanged.
#[verifier::external_body]
pub(crate) fn push_char(s: &mut String, c: char)
    ensures
        final(s)@ == old(s)@.push(c),
{
    s.push(c)
}

/// Leading whitespace removed.
pub open spec fn trim_start(s: Seq<char>) -> Seq<char>
    decreases s.len(),
{
    if s.len() > 0 && white_space(s[0]) {
        trim_start(s.drop_first())
    } else {
        s
    }
}

/// Trailing whitespace removed.
pub open spec fn trim_end(s: Seq<char>) -> Seq<char>
    decreases s.len(),
{
    if s.len() > 0 && white_space(s.last()) {
        trim_end(s.drop_last())
    } else {
        s
    }
}

/// The characters of `s`, in order.
pub(crate) fn chars_of(s: &str) -> (v: Vec<char>)
    ensures
        v@ == s@,
{
    let mut v: Vec<char> = Vec::new();
    for c in it: s.chars()
        invariant
            it.seq() == s@,
            v@ == it.seq().take(it.index() as int),
    {
        v.push(c);
        assert(v@ =~= it.seq().take(it.index() + 1));
    }
    assert(v@ =~= s@);
    v
}

/// `s` with its leading and trailing whitespace removed, as `str::trim`
/// gives it.
pub fn trim(s: &str) -> (r: &str)
    ensures
        r@ == trim_end(trim_start(s@)),
{
    let chars = chars_of(s);
    let n = chars.len();
    let mut lo: usize = 0;
    assert(s@.skip(0) =~= s@);
    while lo < n && is_whitespace(chars[lo])
        invariant
            chars@ == s@,
            n == s@.len(),
            lo <= n,
            trim_start(s@.skip(lo as int)) == trim_start(s@),
        decreases n - lo,
    {
        assert(s@.skip(lo as int).drop_first() =~= s@.skip(lo + 1));
        lo += 1;
    }
    assert(trim_start(s@) == s@.subrange(lo as int, n as int)) by {
        assert(s@.skip(lo as int) =~= s@.subrange(lo as int, n as int));
    }
    let mut hi: usize = n;
    let ghost t = s@.subrange(lo as int, n as int);
    assert(s@.subrange(lo as int, hi as int) =~= t);
    while hi > lo && is_whitespace(chars[hi - 1])
        invariant
            chars@ == s@,
            n == s@.len(),
            lo <= hi <= n,
            t == s@.subrange(lo as int, n as int),
            trim_end(s@.subrange(lo as int, hi as int)) == trim_end(t),
        decreases hi,
    {
        assert(s@.subrange(lo as int, hi as int).drop_last() =~= s@.subrange(lo as int, hi - 1));
        hi -= 1;
    }
    s.substring_char(lo, hi)
}

// ---------------------------------------------------------------------------
// Dangling references
// ---------------------------------------------------------------------------

/// A dangling reference keeps the name that broke and marks it in the
/// *text* — `"mana ?"` — so the flag survives greyscale and screenshots. An
/// empty cell stays empty.
pub open spec fn flagged(value: Seq<char>, ok: bool) -> Seq<char> {
    if ok || value.len() == 0 {
        value
    } else {
        value + seq![' ', '?']
    }
}

pub fn flagged_value(value: &str, ok: bool) -> (r: String)
    ensures
        r@ == flagged(value@, ok),
{
    let mut out = String::from_str(value);
    if !ok && !value.is_empty() {
        push_char(&mut out, ' ');
        push_char(&mut out, '?');
        assert(out@ =~= value@ + seq![' ', '?']);
    }
    out
}

// ---------------------------------------------------------------------------
// Node slugs
// ---------------------------------------------------------------------------

/// One character of the slug scan: an alphanumeric is kept, lowercased; any
/// other character becomes a single `-`, and only once something was kept.
pub open spec fn slug_step(acc: (Seq<char>, bool), c: char) -> (Seq<char>, bool) {
    if alphanumeric(c) {
        (acc.0 + lowercase_of(c), false)
    } else if !acc.1 && acc.0.len() > 0 {
        (acc.0.push('-'), true)
    } else {
        acc
    }
}

/// The scan over `s`: the text built so far, and whether it ends in a dash
/// the scan itself put there.
pub open spec fn slug_scan(s: Seq<char>) -> (Seq<char>, bool)
    decreases s.len(),
{
    if s.len() == 0 {
        (Seq::empty(), false)
    } else {
        slug_step(slug_scan(s.drop_last()), s.last())
    }
}

/// Trailing dashes removed.
pub open spec fn trim_dashes(s: Seq<char>) -> Seq<char>
    decreases s.len(),
{
    if s.len() > 0 && s.last() == '-' {
        trim_dashes(s.drop_last())
    } else {
        s
    }
}

/// The slug of a title: lowercase, runs of anything else folded into one
/// `-`, none leading and none trailing.
pub open spec fn slug(s: Seq<char>) -> Seq<char> {
    trim_dashes(slug_scan(s).0)
}

/// A character a slug of ASCII text may hold.
pub open spec fn slug_char(c: char) -> bool {
    ('a' <= c && c <= 'z') || ('0' <= c && c <= '9') || c == '-'
}

/// The shape of a slug: small letters, digits and single dashes, never
/// starting with a dash.
pub open spec fn slug_shaped(t: Seq<char>) -> bool {
    &&& forall|i: int| 0 <= i < t.len() ==> slug_char(#[trigger] t[i])
    &&& t.len() > 0 ==> t[0] != '-'
    &&& forall|i: int| 0 <= i < t.len() - 1 ==> !(#[trigger] t[i] == '-' && t[i + 1] == '-')
}

proof fn lemma_scan_shaped(s: Seq<char>)
    requires
        forall|i: int| 0 <= i < s.len() ==> is_ascii_char(#[trigger] s[i]),
    ensures
        slug_shaped(slug_scan(s).0),
        slug_scan(s).1 <==> (slug_scan(s).0.len() > 0 && slug_scan(s).0.last() == '-'),
    decreases s.len(),
{
    if s.len() > 0 {
        let d = s.drop_last();
        assert forall|i: int| 0 <= i < d.len() implies is_ascii_char(#[trigger] d[i]) by {
            assert(d[i] == s[i]);
        }
        lemma_scan_shaped(d);
        let acc = slug_scan(d);
        let c = s.last();
        assert(is_ascii_char(s[s.len() - 1]));
        if alphanumeric(c) {
            let l: char = if 'A' <= c && c <= 'Z' { ((c as u32) + 32) as char } else { c };
            assert(lowercase_of(c) == seq![l]);
            assert('a' <= l && l <= 'z' || '0' <= l && l <= '9');
            let t = acc.0 + seq![l];
            assert(t =~= acc.0.push(l));
            assert forall|i: int| 0 <= i < t.len() implies slug_char(#[trigger] t[i]) by {
                if i < acc.0.len() {
                    assert(t[i] == acc.0[i]);
                }
            }
            assert forall|i: int| 0 <= i < t.len() - 1 implies !(#[trigger] t[i] == '-' && t[i + 1] == '-') by {
                assert(t[i] == acc.0[i]);
                if i + 1 < acc.0.len() {
                    assert(t[i + 1] == acc.0[i + 1]);
                }
            }
            if acc.0.len() > 0 {
                assert(t[0] == acc.0[0]);
            }
        } else if !acc.1 && acc.0.len() > 0 {
            let t = acc.0.push('-');
            assert forall|i: int| 0 <= i < t.len() implies slug_char(#[trigger] t[i]) by {
                if i < acc.0.len() {
                    assert(t[i] == acc.0[i]);
                }
            }
            assert forall|i: int| 0 <= i < t.len() - 1 implies !(#[trigger] t[i] == '-' && t[i + 1] == '-') by {
                assert(t[i] == acc.0[i]);
                if i + 1 < acc.0.len() {
                    assert(t[i + 1] == acc.0[i + 1]);
                }
            }
            assert(t[0] == acc.0[0]);
        }
    }
}

proof fn lemma_trim_dashes_shaped(t: Seq<char>)
    requires
        slug_shaped(t),
    ensures
        slug_shaped(trim_dashes(t)),
        trim_dashes(t).len() > 0 ==> trim_dashes(t).last() != '-',
    decreases t.len(),
{
    if t.len() > 0 && t.last() == '-' {
        let d = t.drop_last();
        assert forall|i: int| 0 <= i < d.len() implies slug_char(#[trigger] d[i]) by {
            assert(d[i] == t[i]);
        }
        assert forall|i: int| 0 <= i < d.len() - 1 implies !(#[trigger] d[i] == '-' && d[i + 1] == '-') by {
            assert(d[i] == t[i] && d[i + 1] == t[i + 1]);
        }
        if d.len() > 0 {
            assert(d[0] == t[0]);
        }
        lemma_trim_dashes_shaped(d);
    }
}

/// The slug of ASCII text is made of small letters, digits and single
/// dashes, and neither starts nor ends with a dash.
pub proof fn law_ascii_slug_shape(s: Seq<char>)
    requires
        forall|i: int| 0 <= i < s.len() ==> is_ascii_char(#[trigger] s[i]),
    ensures
        slug_shaped(slug(s)),
        slug(s).len() > 0 ==> slug(s).last() != '-',
{
    lemma_scan_shaped(s);
    lemma_trim_dashes_shaped(slug_scan(s).0);
}

/// Lowercase, non-alphanumerics to `-`: the shape a `#node-slug` reference
/// is written in.
pub fn slugify(s: &str) -> (r: String)
    ensures
        r@ == slug(s@),
{
    let chars = chars_of(s);
    let mut out: Vec<char> = Vec::new();
    let mut dash = false;
    for i in 0..chars.len()
        invariant
            chars@ == s@,
            (out@, dash) == slug_scan(s@.take(i as int)),
    {
        let ch = chars[i];
        assert(s@.take(i + 1).drop_last() =~= s@.take(i as int));
        if is_alphanumeric(ch) {
            let low = lowercase_char(ch);
            let ghost before = out@;
            for j in 0..low.len()
                invariant
                    out@ == before + low@.take(j as int),
            {
                out.push(low[j]);
                assert(out@ =~= before + low@.take(j + 1));
            }
            assert(low@.take(low@.len() as int) =~= low@);
            dash = false;
        } else if !dash && out.len() > 0 {
            out.push('-');
            dash = true;
        }
    }
    assert(s@.take(chars.len() as int) =~= s@);
    let mut k = out.len();
    assert(out@.take(k as int) =~= out@);
    while k > 0 && out[k - 1] == '-'
        invariant
            k <= out@.len(),
            trim_dashes(out@.take(k as int)) == trim_dashes(out@),
        decreases k,
    {
        assert(out@.take(k as int).drop_last() =~= out@.take(k - 1));
        k = k - 1;
    }
    let mut r = String::new();
    for j in 0..k
        invariant
            k <= out@.len(),
            r@ == out@.take(j as int),
    {
        push_char(&mut r, out[j]);
        assert(r@ =~= out@.take(j + 1));
    }
    r
}

// ---------------------------------------------------------------------------
// Comment bodies
// ---------------------------------------------------------------------------

/// A piece of a comment body: a plain word, a `#node` reference (without its
/// `#`), or a line break.
#[derive(Debug, Clone, Copy, PartialEq, Eq)]
pub enum CommentToken<'a> {
    Text(&'a str),
    NodeRef(&'a str),
    Break,
}

pub enum TokenView {
    Text(Seq<char>),
    NodeRef(Seq<char>),
    Break,
}

impl<'a> View for CommentToken<'a> {
    type V = TokenView;

    open spec fn view(&self) -> TokenView {
        match self {
            CommentToken::Text(w) => TokenView::Text(w@),
            CommentToken::NodeRef(w) => TokenView::NodeRef(w@),
            CommentToken::Break => TokenView::Break,
        }
    }
}

pub open spec fn tokens_view<'a>(v: Seq<CommentToken<'a>>) -> Seq<TokenView> {
    v.map_values(|t: CommentToken<'a>| t@)
}

/// A character that belongs to a word: neither a line break nor whitespace.
pub open spec fn is_word_char(c: char) -> bool {
    c != '\n' && !white_space(c)
}

/// How many word characters `s` starts with.
pub open spec fn word_len(s: Seq<char>) -> nat
    decreases s.len(),
{
    if s.len() > 0 && is_word_char(s[0]) {
        1 + word_len(s.drop_first())
    } else {
        0
    }
}

pub proof fn lemma_word_len_bounds(s: Seq<char>)
    ensures
        word_len(s) <= s.len(),
        s.len() > 0 && is_word_char(s[0]) ==> word_len(s) >= 1,
    decreases s.len(),
{
    if s.len() > 0 && is_word_char(s[0]) {
        lemma_word_len_bounds(s.drop_first());
    }
}

/// A word is a node reference when it is `#` followed by at least one more
/// character; a lone `#` stays text.
pub open spec fn classify(w: Seq<char>) -> TokenView {
    if w.len() > 1 && w[0] == '#' {
        TokenView::NodeRef(w.drop_first())
    } else {
        TokenView::Text(w)
    }
}

/// The tokens of a comment body: each line break is a `Break`, whitespace
/// separates words, and each word is classified.
pub open spec fn comment_tokens(s: Seq<char>) -> Seq<TokenView>
    decreases s.len(),
{
    if s.len() == 0 {
        Seq::empty()
    } else if s[0] == '\n' {
        seq![TokenView::Break] + comment_tokens(s.drop_first())
    } else if white_space(s[0]) {
        comment_tokens(s.drop_first())
    } else {
        proof {
            lemma_word_len_bounds(s);
        }
        let k = word_len(s);
        seq![classify(s.take(k as int))] + comment_tokens(s.skip(k as int))
    }
}

proof fn lemma_word_len_run(t: Seq<char>, k: nat)
    requires
        k <= t.len(),
        forall|j: int| 0 <= j < k ==> is_word_char(#[trigger] t[j]),
        k == t.len() || !is_word_char(t[k as int]),
    ensures
        word_len(t) == k,
    decreases k,
{
    if k > 0 {
        assert(is_word_char(t[0]));
        let u = t.drop_first();
        assert forall|j: int| 0 <= j < k - 1 implies is_word_char(#[trigger] u[j]) by {
            assert(u[j] == t[j + 1]);
        }
        if k < t.len() {
            assert(u[k - 1] == t[k as int]);
        }
        lemma_word_len_run(u, (k - 1) as nat);
    }
}

/// The tokens of `s.skip(st)` when a word runs from `st` up to `end`.
proof fn lemma_tokens_after_word(s: Seq<char>, st: int, end: int)
    requires
        0 <= st < end <= s.len(),
        forall|j: int| st <= j < end ==> is_word_char(#[trigger] s[j]),
        end == s.len() || !is_word_char(s[end]),
    ensures
        comment_tokens(s.skip(st)) == seq![classify(s.subrange(st, end))] + comment_tokens(s.skip(end)),
{
    let t = s.skip(st);
    assert forall|j: int| 0 <= j < end - st implies is_word_char(#[trigger] t[j]) by {
        assert(t[j] == s[st + j]);
    }
    if end < s.len() {
        assert(t[end - st] == s[end]);
    }
    lemma_word_len_run(t, (end - st) as nat);
    assert(t[0] == s[st]);
    assert(is_word_char(t[0]));
    assert(t.take(end - st) =~= s.subrange(st, end));
    assert(t.skip(end - st) =~= s.skip(end));
}

/// How many line breaks `s` holds.
pub open spec fn newlines(s: Seq<char>) -> nat
    decreases s.len(),
{
    if s.len() == 0 {
        0
    } else {
        (if s[0] == '\n' { 1nat } else { 0nat }) + newlines(s.drop_first())
    }
}

/// How many `Break` tokens `ts` holds.
pub open spec fn breaks(ts: Seq<TokenView>) -> nat
    decreases ts.len(),
{
    if ts.len() == 0 {
        0
    } else {
        (if ts[0] is Break { 1nat } else { 0nat }) + breaks(ts.drop_first())
    }
}

proof fn lemma_newlines_skip_word(s: Seq<char>, k: int)
    requires
        0 <= k <= s.len(),
        forall|j: int| 0 <= j < k ==> is_word_char(#[trigger] s[j]),
    ensures
        newlines(s) == newlines(s.skip(k)),
    decreases k,
{
    if k > 0 {
        assert(is_word_char(s[0]));
        let t = s.drop_first();
        assert forall|j: int| 0 <= j < k - 1 implies is_word_char(#[trigger] t[j]) by {
            assert(t[j] == s[j + 1]);
        }
        lemma_newlines_skip_word(t, k - 1);
        assert(t.skip(k - 1) =~= s.skip(k));
    } else {
        assert(s.skip(0) =~= s);
    }
}

proof fn lemma_word_len_chars(s: Seq<char>)
    ensures
        forall|j: int| 0 <= j < word_len(s) ==> is_word_char(#[trigger] s[j]),
    decreases s.len(),
{
    if s.len() > 0 && is_word_char(s[0]) {
        let t = s.drop_first();
        lemma_word_len_chars(t);
        lemma_word_len_bounds(t);
        assert forall|j: int| 0 <= j < word_len(s) implies is_word_char(#[trigger] s[j]) by {
            if j > 0 {
                assert(s[j] == t[j - 1]);
            }
        }
    }
}

/// A comment keeps its line structure: it tokenizes to exactly as many
/// `Break`s as it has line breaks.
pub proof fn law_comment_breaks_match_lines(s: Seq<char>)
    ensures
        breaks(comment_tokens(s)) == newlines(s),
    decreases s.len(),
{
    if s.len() > 0 {
        if s[0] == '\n' {
            law_comment_breaks_match_lines(s.drop_first());
            let ts = comment_tokens(s);
            assert(ts.drop_first() =~= comment_tokens(s.drop_first()));
        } else if white_space(s[0]) {
            law_comment_breaks_match_lines(s.drop_first());
        } else {
            lemma_word_len_bounds(s);
            lemma_word_len_chars(s);
            let k = word_len(s) as int;
            law_comment_breaks_match_lines(s.skip(k));
            lemma_newlines_skip_word(s, k);
            let ts = comment_tokens(s);
            assert(ts.drop_first() =~= comment_tokens(s.skip(k)));
            assert(!(classify(s.take(k)) is Break));
        }
    }
}

/// The word `text[st..end]` (in characters) as a token.
fn word_token<'a>(text: &'a str, chars: &Vec<char>, st: usize, end: usize) -> (t: CommentToken<'a>)
    requires
        chars@ == text@,
        st < end <= chars@.len(),
    ensures
        t@ == classify(text@.subrange(st as int, end as int)),
{
    if chars[st] == '#' && end - st > 1 {
        let rest = text.substring_char(st + 1, end);
        assert(rest@ =~= text@.subrange(st as int, end as int).drop_first());
        CommentToken::NodeRef(rest)
    } else {
        CommentToken::Text(text.substring_char(st, end))
    }
}

/// Split a comment body into words, `#node` references and line breaks.
pub fn tokenize_comment<'a>(text: &'a str) -> (r: Vec<CommentToken<'a>>)
    ensures
        tokens_view(r@) == comment_tokens(text@),
{
    let chars = chars_of(text);
    let ghost s = text@;
    let n = chars.len();
    let mut out: Vec<CommentToken<'a>> = Vec::new();
    let mut start: Option<usize> = None;
    let mut i: usize = 0;
    assert(s.skip(0) =~= s);
    while i < n
        invariant
            chars@ == s,
            s == text@,
            n == s.len(),
            i <= n,
            start is None ==> tokens_view(out@) + comment_tokens(s.skip(i as int)) == comment_tokens(s),
            start matches Some(st) ==> {
                &&& st < i
                &&& forall|j: int| st <= j < i ==> is_word_char(#[trigger] s[j])
                &&& tokens_view(out@) + comment_tokens(s.skip(st as int)) == comment_tokens(s)
            },
        decreases n - i,
    {
        let c = chars[i];
        let word = c != '\n' && !is_whitespace(c);
        if word {
            if start.is_none() {
                start = Some(i);
            }
        } else {
            if let Some(st) = start {
                proof {
                    lemma_tokens_after_word(s, st as int, i as int);
                }
                let t = word_token(text, &chars, st, i);
                let ghost before = out@;
                out.push(t);
                assert(tokens_view(out@) =~= tokens_view(before) + seq![t@]);
                start = None;
            }
            assert(s.skip(i as int).drop_first() =~= s.skip(i + 1));
            assert(s.skip(i as int)[0] == c);
            if c == '\n' {
                let ghost before = out@;
                out.push(CommentToken::Break);
                assert(tokens_view(out@) =~= tokens_view(before) + seq![TokenView::Break]);
            }
        }
        i = i + 1;
    }
    if let Some(st) = start {
        proof {
            lemma_tokens_after_word(s, st as int, n as int);
        }
        let t = word_token(text, &chars, st, n);
        let ghost before = out@;
        out.push(t);
        assert(tokens_view(out@) =~= tokens_view(before) + seq![t@]);
    }
    assert(s.skip(n as int) =~= Seq::<char>::empty());
    assert(comment_tokens(s.skip(n as int)) =~= Seq::<TokenView>::empty());
    out
}

// ---------------------------------------------------------------------------
// Filter highlights
// ---------------------------------------------------------------------------

/// `n` occurs in `h` at byte `i`.
pub open spec fn occurs_at(h: Seq<u8>, n: Seq<u8>, i: int) -> bool {
    0 <= i && i + n.len() <= h.len() && h.subrange(i, i + n.len()) == n
}

/// The first byte at which `n` occurs in `h`, if it occurs at all.
pub open spec fn first_occurrence(h: Seq<u8>, n: Seq<u8>) -> Option<int> {
    if exists|i: int| occurs_at(h, n, i) {
        Some(choose|i: int| occurs_at(h, n, i) && forall|j: int| 0 <= j < i ==> !occurs_at(h, n, j))
    } else {
        None
    }
}

/// Calls `str::find` with a string pattern. Claimed: `Some(i)` exactly
/// when the needle's bytes occur in the haystack's, `i` being the first
/// such byte offset; and the match ends inside the haystack, whose length
/// fits in a `usize`.
#[verifier::external_body]
fn find(haystack: &str, needle: &str) -> (r: Option<usize>)
    ensures
        match r {
            Some(i) => {
                &&& occurs_at(encode_utf8(haystack@), encode_utf8(needle@), i as int)
                &&& forall|j: int| 0 <= j < i ==> !occurs_at(encode_utf8(haystack@), encode_utf8(needle@), j)
                &&& i + encode_utf8(needle@).len() <= usize::MAX
            },
            None => forall|j: int| !occurs_at(encode_utf8(haystack@), encode_utf8(needle@), j),
        },
{
    haystack.find(needle)
}

/// What a filter looks for: the typed text, trimmed and lowercased.
pub open spec fn filter_query(filter: Seq<char>) -> Seq<char> {
    unicode_lowercase(trim_end(trim_start(filter)))
}

/// The byte span of `label` a filter highlights: the first case-insensitive
/// match, when the filter is not blank and the span's ends fall on character
/// boundaries of the label itself.
pub open spec fn hit_span(label: Seq<char>, filter: Seq<char>) -> Option<(int, int)> {
    let q = filter_query(filter);
    if q.len() == 0 {
        None
    } else {
        match first_occurrence(encode_utf8(unicode_lowercase(label)), encode_utf8(q)) {
            Some(at) => {
                let end = at + encode_utf8(q).len();
                if is_char_boundary(encode_utf8(label), at) && is_char_boundary(encode_utf8(label), end) {
                    Some((at, end))
                } else {
                    None
                }
            },
            None => None,
        }
    }
}

/// A highlight is never empty and never leaves the label: both ends are
/// byte offsets into the label itself, the start before the end.
pub proof fn law_filter_span_lies_in_the_label(label: Seq<char>, filter: Seq<char>)
    ensures
        hit_span(label, filter) matches Some((a, b)) ==> 0 <= a < b <= encode_utf8(label).len(),
{
    let q = filter_query(filter);
    if q.len() > 0 {
        vstd::utf8::encode_utf8_valid_utf8(label);
        assert(encode_utf8(q) == vstd::utf8::encode_scalar(q[0] as u32) + encode_utf8(q.drop_first()));
        assert(encode_utf8(q).len() > 0);
    }
}

/// The byte range of `label` that `filter` matches, case-insensitively.
/// Offsets found in the lowercased label are only usable in the label as
/// typed when both land on character boundaries there; otherwise nothing is
/// highlighted rather than a glyph cut apart.
pub fn filter_hit(label: &str, filter: &str) -> (r: Option<(usize, usize)>)
    ensures
        match r {
            Some((a, b)) => hit_span(label@, filter@) == Some((a as int, b as int)),
            None => hit_span(label@, filter@) is None,
        },
{
    let q = lowercase(trim(filter));
    if q.as_str().is_empty() {
        return None;
    }
    let hay = lowercase(label);
    match find(hay.as_str(), q.as_str()) {
        None => {
            let ghost h = encode_utf8(unicode_lowercase(label@));
            let ghost n = encode_utf8(q@);
            assert(!exists|i: int| occurs_at(h, n, i));
            None
        },
        Some(at) => {
            let ghost h = encode_utf8(unicode_lowercase(label@));
            let ghost n = encode_utf8(q@);
            assert(occurs_at(h, n, at as int));
            let ghost c = choose|i: int| occurs_at(h, n, i) && forall|j: int| 0 <= j < i ==> !occurs_at(h, n, j);
            assert(c == at) by {
                if c < at {
                    assert(!occurs_at(h, n, c));
                } else if c > at {
                    assert(!occurs_at(h, n, at as int));
                }
            }
            let end = at + q.as_str().len();
            if label.is_char_boundary(at) && label.is_char_boundary(end) {
                Some((at, end))
            } else {
                None
            }
        },
    }
}

// ---------------------------------------------------------------------------
// Decimal numbers
// ---------------------------------------------------------------------------

/// The ASCII digit for `d`, which is below ten.
pub open spec fn digit_char(d: nat) -> char {
    ((d + 48) as u8) as char
}

/// `n` written in decimal, without sign or leading zeros.
pub open spec fn decimal(n: nat) -> Seq<char>
    decreases n,
{
    if n < 10 {
        seq![digit_char(n)]
    } else {
        decimal(n / 10).push(digit_char(n % 10))
    }
}

/// The ASCII digit for `d`.
fn digit(d: u64) -> (c: char)
    requires
        d < 10,
    ensures
        c == digit_char(d as nat),
{
    match d {
        0 => '0',
        1 => '1',
        2 => '2',
        3 => '3',
        4 => '4',
        5 => '5',
        6 => '6',
        7 => '7',
        8 => '8',
        _ => '9',
    }
}

/// `n` in decimal, as `u64`'s `Display` writes it.
pub fn decimal_string(n: u64) -> (r: String)
    ensures
        r@ == decimal(n as nat),
{
    // Collect the digits least significant first, then write them out.
    let mut rev: Vec<char> = Vec::new();
    let mut m = n;
    let ghost mut parts: Seq<nat> = seq![];
    loop
        invariant_except_break
            decimal(n as nat) == decimal(m as nat) + parts.reverse().map_values(|d: nat| digit_char(d)),
        invariant
            rev@.len() == parts.len(),
            forall|k: int| 0 <= k < rev@.len() ==> rev@[k] == digit_char(#[trigger] parts[k]),
        ensures
            decimal(n as nat) == parts.reverse().map_values(|d: nat| digit_char(d)),
        decreases m,
    {
        let d = m % 10;
        let c = digit(d);
        if m < 10 {
            rev.push(c);
            proof {
                let old_parts = parts;
                parts = parts.push(d as nat);
                assert(decimal(m as nat) == seq![digit_char(d as nat)]);
                assert(parts.reverse() =~= seq![d as nat] + old_parts.reverse());
                assert(parts.reverse().map_values(|x: nat| digit_char(x)) =~= seq![digit_char(d as nat)] + old_parts.reverse().map_values(|x: nat| digit_char(x)));
            }
            break;
        }
        rev.push(c);
        proof {
            let old_parts = parts;
            parts = parts.push(d as nat);
            assert(decimal(m as nat) == decimal((m / 10) as nat).push(digit_char(d as nat)));
            assert(parts.reverse() =~= seq![d as nat] + old_parts.reverse());
            assert(parts.reverse().map_values(|x: nat| digit_char(x)) =~= seq![digit_char(d as nat)] + old_parts.reverse().map_values(|x: nat| digit_char(x)));
            assert(decimal((m / 10) as nat).push(digit_char(d as nat)) + old_parts.reverse().map_values(|x: nat| digit_char(x))
                =~= decimal((m / 10) as nat) + parts.reverse().map_values(|x: nat| digit_char(x)));
        }
        m = m / 10;
    }
    let mut r = String::new();
    let mut k = rev.len();
    let ghost want = decimal(n as nat);
    while k > 0
        invariant
            k <= rev@.len(),
            rev@.len() == parts.len(),
            forall|j: int| 0 <= j < rev@.len() ==> rev@[j] == digit_char(#[trigger] parts[j]),
            want == parts.reverse().map_values(|d: nat| digit_char(d)),
            r@ == want.take(rev@.len() - k),
        decreases k,
    {
        k = k - 1;
        push_char(&mut r, rev[k]);
        assert(want[rev@.len() - k - 1] == rev@[k as int]);
        assert(r@ =~= want.take(rev@.len() - k));
    }
    assert(want.take(rev@.len() as int) =~= want);
    r
}

/// An ASCII decimal digit.
pub open spec fn is_digit(c: char) -> bool {
    '0' <= c && c <= '9'
}

/// The value of a run of decimal digits.
pub open spec fn digits_value(s: Seq<char>) -> nat
    decreases s.len(),
{
    if s.len() == 0 {
        0
    } else {
        digits_value(s.drop_last()) * 10 + ((s.last() as int) - 48) as nat
    }
}

/// `s` without its leading `+`, if it has one.
pub open spec fn unsigned_digits(s: Seq<char>) -> Seq<char> {
    if s.len() > 0 && s[0] == '+' {
        s.drop_first()
    } else {
        s
    }
}

/// What `u64`'s `FromStr` reads: an optional `+`, then one or more decimal
/// digits whose value fits in a `u64`; anything else is refused.
pub open spec fn parsed_u64(s: Seq<char>) -> Option<u64> {
    let body = unsigned_digits(s);
    if body.len() > 0 && (forall|i: int| 0 <= i < body.len() ==> is_digit(#[trigger] body[i])) && digits_value(body) <= u64::MAX {
        Some(digits_value(body) as u64)
    } else {
        None
    }
}

proof fn lemma_digits_value_grows(b: Seq<char>, k: int)
    requires
        0 <= k <= b.len(),
        forall|i: int| 0 <= i < b.len() ==> is_digit(#[trigger] b[i]),
    ensures
        digits_value(b.take(k)) <= digits_value(b),
    decreases b.len(),
{
    if k < b.len() {
        let d = b.drop_last();
        assert forall|i: int| 0 <= i < d.len() implies is_digit(#[trigger] d[i]) by {
            assert(d[i] == b[i]);
        }
        lemma_digits_value_grows(d, k);
        assert(d.take(k) =~= b.take(k));
        assert(is_digit(b.last()));
    } else {
        assert(b.take(k) =~= b);
    }
}

/// Parse a node id the way `u64`'s `FromStr` does.
pub fn parse_u64(s: &str) -> (r: Option<u64>)
    ensures
        r == parsed_u64(s@),
{
    let chars = chars_of(s);
    let n = chars.len();
    let start: usize = if n > 0 && chars[0] == '+' { 1 } else { 0 };
    let ghost body = unsigned_digits(s@);
    assert(body =~= s@.subrange(start as int, n as int));
    if start == n {
        return None;
    }
    let mut val: u64 = 0;
    let mut i = start;
    while i < n
        invariant
            chars@ == s@,
            n == s@.len(),
            start <= i <= n,
            body == s@.subrange(start as int, n as int),
            body == unsigned_digits(s@),
            forall|j: int| 0 <= j < i - start ==> is_digit(#[trigger] body[j]),
            val == digits_value(body.take(i - start)),
        decreases n - i,
    {
        let c = chars[i];
        assert(c == body[i - start]);
        if !('0' <= c && c <= '9') {
            assert(!is_digit(body[i - start]));
            assert(!(forall|j: int| 0 <= j < body.len() ==> is_digit(#[trigger] body[j])));
            return None;
        }
        let d = (c as u32 - 48) as u64;
        assert(body.take(i - start + 1).drop_last() =~= body.take(i - start));
        assert(body.take(i - start + 1).last() == c);
        assert(digits_value(body.take(i - start + 1)) == val * 10 + d);
        let next = match val.checked_mul(10) {
            Some(t) => t.checked_add(d),
            None => None,
        };
        match next {
            Some(v) => {
                val = v;
            },
            None => {
                proof {
                    assert(val * 10 + d > u64::MAX);
                    if forall|j: int| 0 <= j < body.len() ==> is_digit(#[trigger] body[j]) {
                        lemma_digits_value_grows(body, i - start + 1);
                        assert(digits_value(body) > u64::MAX);
                    }
                }
                return None;
            },
        }
        i += 1;
    }
    assert(body.take(n - start) =~= body);
    Some(val)
}

// ---------------------------------------------------------------------------
// Following a `#node` reference
// ---------------------------------------------------------------------------

/// Index of the first title whose slug is `want`.
pub open spec fn first_titled(titles: Seq<(u64, String)>, want: Seq<char>) -> Option<int>
    decreases titles.len(),
{
    if titles.len() == 0 {
        None
    } else {
        match first_titled(titles.drop_last(), want) {
            Some(j) => Some(j),
            None => if slug(titles.last().1@) == want { Some(titles.len() - 1) } else { None },
        }
    }
}

proof fn lemma_first_titled(titles: Seq<(u64, String)>, want: Seq<char>)
    ensures
        first_titled(titles, want) matches Some(j) ==> 0 <= j < titles.len() && slug(titles[j].1@) == want
            && forall|k: int| 0 <= k < j ==> slug(titles[k].1@) != want,
        first_titled(titles, want) is None ==> forall|k: int| 0 <= k < titles.len() ==> slug(titles[k].1@) != want,
    decreases titles.len(),
{
    if titles.len() > 0 {
        lemma_first_titled(titles.drop_last(), want);
        assert forall|k: int| 0 <= k < titles.len() - 1 implies titles[k] == titles.drop_last()[k] by {}
    }
}

/// Where a `#node` reference points: a node id that exists, else the first
/// node (in `titles`, the canvas's `(id, title)` list) whose title slugifies
/// to the reference lowercased.
pub open spec fn resolved_ref(doc: GraphDoc, titles: Seq<(u64, String)>, token: Seq<char>) -> Option<u64> {
    if parsed_u64(token) matches Some(id) && node_slot(doc.nodes@, id) is Some {
        parsed_u64(token)
    } else {
        match first_titled(titles, unicode_lowercase(token)) {
            Some(j) => Some(titles[j].0),
            None => None,
        }
    }
}

/// Resolve a `#node` reference. An unresolvable reference does nothing when
/// clicked.
pub fn resolve_node_ref(doc: &GraphDoc, titles: &[(u64, String)], token: &str) -> (r: Option<u64>)
    ensures
        r == resolved_ref(*doc, titles@, token@),
{
    if let Some(id) = parse_u64(token) {
        if doc.node(id).is_some() {
            return Some(id);
        }
    }
    let want = lowercase(token);
    proof {
        lemma_first_titled(titles@, want@);
    }
    let mut j: usize = 0;
    while j < titles.len()
        invariant
            j <= titles@.len(),
            want@ == unicode_lowercase(token@),
            !(parsed_u64(token@) matches Some(id) && node_slot(doc.nodes@, id) is Some),
            forall|k: int| 0 <= k < j ==> slug(titles@[k].1@) != want@,
        decreases titles.len() - j,
    {
        let s = slugify(titles[j].1.as_str());
        if s == want {
            proof {
                lemma_first_titled(titles@, want@);
                assert(first_titled(titles@, want@) == Some(j as int));
            }
            return Some(titles[j].0);
        }
        j += 1;
    }
    None
}

} // verus!
