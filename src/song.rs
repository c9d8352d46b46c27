//! The now-playing record and the one-line tag document that carries it:
//! `<Song><artist>A</artist><title>T</title><status>S</status></Song>`, where
//! each text is escaped with the entities `&amp;`, `&lt;`, `&gt;`, `&quot;`
//! and `&apos;`.
use vstd::prelude::*;
use crate::text::{starts_with, no_markup, matches_at, find_markup, find_char};

verus! {

/// One now-playing event.
pub struct Song {
    pub artist: String,
    pub title: String,
    pub status: String,
}

/// What a [`Song`] holds, as sequences of characters.
pub ghost struct SongView {
    pub artist: Seq<char>,
    pub title: Seq<char>,
    pub status: Seq<char>,
}

impl View for Song {
    type V = SongView;

    open spec fn view(&self) -> SongView {
        SongView { artist: self.artist@, title: self.title@, status: self.status@ }
    }
}

/// A line that is not a well-formed song document.
#[derive(Debug, PartialEq, Eq, Structural)]
pub enum ParseError {
    /// The tags are missing, misplaced, or followed by more text.
    Malformed,
    /// A text holds an `&` that begins no known entity.
    BadEntity,
}

/// `&amp;`, which stands for `&`.
pub open spec fn amp_entity() -> Seq<char> {
    seq!['&', 'a', 'm', 'p', ';']
}

/// `&lt;`, which stands for `<`.
pub open spec fn lt_entity() -> Seq<char> {
    seq!['&', 'l', 't', ';']
}

/// `&gt;`, which stands for `>`.
pub open spec fn gt_entity() -> Seq<char> {
    seq!['&', 'g', 't', ';']
}

/// `&quot;`, which stands for `"`.
pub open spec fn quot_entity() -> Seq<char> {
    seq!['&', 'q', 'u', 'o', 't', ';']
}

/// `&apos;`, which stands for `'`.
pub open spec fn apos_entity() -> Seq<char> {
    seq!['&', 'a', 'p', 'o', 's', ';']
}

/// The value of a digit in base 10, or base 16 where `hex`; -1 for a
/// character that is no such digit.
pub open spec fn digit_value(c: char, hex: bool) -> int {
    if '0' <= c && c <= '9' {
        c as int - '0' as int
    } else if hex && 'a' <= c && c <= 'f' {
        c as int - 'a' as int + 10
    } else if hex && 'A' <= c && c <= 'F' {
        c as int - 'A' as int + 10
    } else {
        -1
    }
}

/// The number that the digits `d` write, in base 10 or 16.
pub open spec fn digits_value(d: Seq<char>, hex: bool) -> int
    decreases d.len(),
{
    if d.len() == 0 {
        0
    } else {
        digits_value(d.drop_last(), hex) * (if hex { 16int } else { 10int }) + digit_value(
            d.last(),
            hex,
        )
    }
}

/// `d` is a non-empty run of digits in base 10, or 16 where `hex`.
pub open spec fn all_digits(d: Seq<char>, hex: bool) -> bool {
    d.len() > 0 && forall|i: int| 0 <= i < d.len() ==> #[trigger] digit_value(d[i], hex) >= 0
}

/// `v` is the code point of a character.
pub open spec fn is_scalar(v: int) -> bool {
    0 <= v <= 0x10FFFF && !(0xD800 <= v <= 0xDFFF)
}

/// The code point of a character.
pub open spec fn code_point(c: char) -> int {
    c as u32 as int
}

/// The character with code point `v`.
pub open spec fn char_of(v: int) -> char {
    choose|c: char| #[trigger] code_point(c) == v
}

/// `j` is where the first `';'` of `s` stands.
pub open spec fn is_first_semicolon(s: Seq<char>, j: int) -> bool {
    &&& 0 <= j < s.len()
    &&& s[j] == ';'
    &&& forall|k: int| 0 <= k < j ==> #[trigger] s[k] != ';'
}

/// Where the first `';'` of `s` stands, or -1.
pub open spec fn semicolon_index(s: Seq<char>) -> int {
    if exists|j: int| is_first_semicolon(s, j) {
        choose|j: int| is_first_semicolon(s, j)
    } else {
        -1
    }
}

/// The digits of the character reference that begins `s` (`&#` and decimal
/// digits, or `&#x` and hexadecimal digits, up to the first `;`).
pub open spec fn ref_digits(s: Seq<char>) -> Seq<char> {
    s.subrange(if s[2] == 'x' { 3int } else { 2int }, semicolon_index(s))
}

/// `s` begins with a character reference to a character.
pub open spec fn starts_with_char_ref(s: Seq<char>) -> bool {
    &&& s.len() >= 3
    &&& s[0] == '&'
    &&& s[1] == '#'
    &&& (if s[2] == 'x' { 3int } else { 2int }) <= semicolon_index(s) < s.len()
    &&& all_digits(ref_digits(s), s[2] == 'x')
    &&& is_scalar(digits_value(ref_digits(s), s[2] == 'x'))
}

/// The escaped form of one character.
pub open spec fn escape_char(c: char) -> Seq<char> {
    if c == '&' {
        amp_entity()
    } else if c == '<' {
        lt_entity()
    } else if c == '>' {
        gt_entity()
    } else if c == '"' {
        quot_entity()
    } else if c == '\'' {
        apos_entity()
    } else {
        seq![c]
    }
}

/// The escaped form of a text.
pub open spec fn escape(s: Seq<char>) -> Seq<char>
    decreases s.len(),
{
    if s.len() == 0 {
        Seq::empty()
    } else {
        escape_char(s[0]) + escape(s.skip(1))
    }
}

/// `c` in front of a decoded text, if there is one.
pub open spec fn prepend(c: char, r: Option<Seq<char>>) -> Option<Seq<char>> {
    match r {
        Some(t) => Some(seq![c] + t),
        None => None,
    }
}

/// The text that an escaped text stands for; `None` where an `&` begins no
/// known entity.
pub open spec fn unescape(s: Seq<char>) -> Option<Seq<char>>
    decreases s.len(),
{
    if s.len() == 0 {
        Some(Seq::empty())
    } else if s[0] != '&' {
        prepend(s[0], unescape(s.skip(1)))
    } else if starts_with(s, amp_entity()) {
        prepend('&', unescape(s.skip(5)))
    } else if starts_with(s, lt_entity()) {
        prepend('<', unescape(s.skip(4)))
    } else if starts_with(s, gt_entity()) {
        prepend('>', unescape(s.skip(4)))
    } else if starts_with(s, quot_entity()) {
        prepend('"', unescape(s.skip(6)))
    } else if starts_with(s, apos_entity()) {
        prepend('\'', unescape(s.skip(6)))
    } else if starts_with_char_ref(s) {
        prepend(
            char_of(digits_value(ref_digits(s), s[2] == 'x')),
            unescape(s.skip(semicolon_index(s) + 1)),
        )
    } else {
        None
    }
}

/// The document with the raw texts `a`, `t` and `s` between its tags.
pub open spec fn document(a: Seq<char>, t: Seq<char>, s: Seq<char>) -> Seq<char> {
    "<Song><artist>"@ + a + "</artist><title>"@ + t + "</title><status>"@ + s
        + "</status></Song>"@
}

/// `line` is the document with the raw texts `a`, `t`, `s`, none of which
/// holds a `'<'`.
pub open spec fn is_document_of(line: Seq<char>, a: Seq<char>, t: Seq<char>, s: Seq<char>) -> bool {
    line == document(a, t, s) && no_markup(a) && no_markup(t) && no_markup(s)
}

/// The song that `line` carries, if it is a well-formed document.
pub open spec fn parse_document(line: Seq<char>) -> Option<SongView> {
    if exists|a: Seq<char>, t: Seq<char>, s: Seq<char>| is_document_of(line, a, t, s) {
        let (a, t, s) = choose|a: Seq<char>, t: Seq<char>, s: Seq<char>|
            is_document_of(line, a, t, s);
        match (unescape(a), unescape(t), unescape(s)) {
            (Some(a), Some(t), Some(s)) => Some(SongView { artist: a, title: t, status: s }),
            _ => None,
        }
    } else {
        None
    }
}

/// The raw texts of `line`, if it is a document at all.
pub open spec fn document_parts(line: Seq<char>) -> Option<(Seq<char>, Seq<char>, Seq<char>)> {
    if exists|a: Seq<char>, t: Seq<char>, s: Seq<char>| is_document_of(line, a, t, s) {
        Some(choose|a: Seq<char>, t: Seq<char>, s: Seq<char>| is_document_of(line, a, t, s))
    } else {
        None
    }
}

/// The document that carries a song.
pub open spec fn encode_document(song: SongView) -> Seq<char> {
    document(escape(song.artist), escape(song.title), escape(song.status))
}

proof fn lemma_split_unique(
    l: Seq<char>,
    p: Seq<char>,
    x: Seq<char>,
    r: Seq<char>,
    x2: Seq<char>,
    r2: Seq<char>,
)
    requires
        l == p + x + r,
        l == p + x2 + r2,
        no_markup(x),
        no_markup(x2),
        r.len() > 0,
        r[0] == '<',
        r2.len() > 0,
        r2[0] == '<',
    ensures
        x == x2,
        r == r2,
{
    let n: int = (p.len() + x.len()) as int;
    let n2: int = (p.len() + x2.len()) as int;
    if x.len() < x2.len() {
        assert(l[n] == r[0]);
        assert(l[n] == x2[x.len() as int]);
    } else if x2.len() < x.len() {
        assert(l[n2] == r2[0]);
        assert(l[n2] == x[x2.len() as int]);
    }
    assert(x =~= l.subrange(p.len() as int, n));
    assert(x2 =~= l.subrange(p.len() as int, n2));
    assert(r =~= l.skip(n));
    assert(r2 =~= l.skip(n2));
}

proof fn lemma_document_unique(
    l: Seq<char>,
    a: Seq<char>,
    t: Seq<char>,
    s: Seq<char>,
    a2: Seq<char>,
    t2: Seq<char>,
    s2: Seq<char>,
)
    requires
        is_document_of(l, a, t, s),
        is_document_of(l, a2, t2, s2),
    ensures
        a == a2,
        t == t2,
        s == s2,
{
    reveal_strlit("</artist><title>");
    reveal_strlit("</title><status>");
    reveal_strlit("</status></Song>");
    let o = "<Song><artist>"@;
    let m1 = "</artist><title>"@;
    let m2 = "</title><status>"@;
    let c = "</status></Song>"@;
    let r = m1 + t + m2 + s + c;
    let r2 = m1 + t2 + m2 + s2 + c;
    assert(l =~= o + a + r);
    assert(l =~= o + a2 + r2);
    lemma_split_unique(l, o, a, r, a2, r2);
    let q = m2 + s + c;
    let q2 = m2 + s2 + c;
    assert(r =~= m1 + t + q);
    assert(r =~= m1 + t2 + q2);
    lemma_split_unique(r, m1, t, q, t2, q2);
    assert(q =~= m2 + s + c);
    assert(q =~= m2 + s2 + c);
    lemma_split_unique(q, m2, s, c, s2, c);
}

proof fn lemma_document_parts(l: Seq<char>, a: Seq<char>, t: Seq<char>, s: Seq<char>)
    requires
        is_document_of(l, a, t, s),
    ensures
        document_parts(l) == Some((a, t, s)),
        parse_document(l) == match (unescape(a), unescape(t), unescape(s)) {
            (Some(a), Some(t), Some(s)) => Some(SongView { artist: a, title: t, status: s }),
            _ => None,
        },
{
    let (a2, t2, s2) = choose|a: Seq<char>, t: Seq<char>, s: Seq<char>|
        is_document_of(l, a, t, s);
    lemma_document_unique(l, a, t, s, a2, t2, s2);
}

proof fn lemma_entity_literals()
    ensures
        "&amp;"@ == amp_entity(),
        "&lt;"@ == lt_entity(),
        "&gt;"@ == gt_entity(),
        "&quot;"@ == quot_entity(),
        "&apos;"@ == apos_entity(),
        "&"@ == seq!['&'],
        "<"@ == seq!['<'],
        ">"@ == seq!['>'],
        "\""@ == seq!['"'],
        "'"@ == seq!['\''],
{
    reveal_strlit("&amp;");
    reveal_strlit("&lt;");
    reveal_strlit("&gt;");
    reveal_strlit("&quot;");
    reveal_strlit("&apos;");
    reveal_strlit("&");
    reveal_strlit("<");
    reveal_strlit(">");
    reveal_strlit("\"");
    reveal_strlit("'");
    assert("&amp;"@ =~= amp_entity());
    assert("&lt;"@ =~= lt_entity());
    assert("&gt;"@ =~= gt_entity());
    assert("&quot;"@ =~= quot_entity());
    assert("&apos;"@ =~= apos_entity());
    assert("&"@ =~= seq!['&']);
    assert("<"@ =~= seq!['<']);
    assert(">"@ =~= seq!['>']);
    assert("\""@ =~= seq!['"']);
    assert("'"@ =~= seq!['\'']);
}

proof fn lemma_escape_concat(x: Seq<char>, y: Seq<char>)
    ensures
        escape(x + y) == escape(x) + escape(y),
    decreases x.len(),
{
    if x.len() == 0 {
        assert(x + y =~= y);
        assert(escape(x) + escape(y) =~= escape(y));
    } else {
        lemma_escape_concat(x.skip(1), y);
        assert((x + y).skip(1) =~= x.skip(1) + y);
        assert(escape(x + y) =~= escape_char(x[0]) + escape(x.skip(1) + y));
    }
}

proof fn lemma_escape_single(c: char)
    ensures
        escape(seq![c]) == escape_char(c),
{
    assert(seq![c].skip(1) =~= Seq::<char>::empty());
    assert(escape(Seq::<char>::empty()) =~= Seq::<char>::empty());
    assert(escape(seq![c]) =~= escape_char(c) + Seq::<char>::empty());
}

proof fn lemma_differs_at(s: Seq<char>, p: Seq<char>, i: int)
    requires
        0 <= i < p.len(),
        i < s.len(),
        s[i] != p[i],
    ensures
        !starts_with(s, p),
{
    if p.len() <= s.len() {
        assert(s.take(p.len() as int)[i] == s[i]);
    }
}

proof fn lemma_unescape_escape(x: Seq<char>)
    ensures
        unescape(escape(x)) == Some(x),
        no_markup(escape(x)),
    decreases x.len(),
{
    if x.len() == 0 {
        assert(escape(x) =~= Seq::<char>::empty());
        assert(Seq::<char>::empty() + Seq::<char>::empty() =~= Seq::<char>::empty());
    } else {
        let c = x[0];
        let rest = x.skip(1);
        lemma_unescape_escape(rest);
        let e = escape_char(c);
        let s = e + escape(rest);
        assert(escape(x) == s);
        assert(s.skip(e.len() as int) =~= escape(rest));
        assert(s.take(e.len() as int) =~= e);
        assert(x =~= seq![c] + rest);
        if c == '&' {
            assert(starts_with(s, amp_entity()));
        } else if c == '<' {
            lemma_differs_at(s, amp_entity(), 1);
            assert(starts_with(s, lt_entity()));
        } else if c == '>' {
            lemma_differs_at(s, amp_entity(), 1);
            lemma_differs_at(s, lt_entity(), 1);
            assert(starts_with(s, gt_entity()));
        } else if c == '"' {
            lemma_differs_at(s, amp_entity(), 1);
            lemma_differs_at(s, lt_entity(), 1);
            lemma_differs_at(s, gt_entity(), 1);
            assert(starts_with(s, quot_entity()));
        } else if c == '\'' {
            lemma_differs_at(s, amp_entity(), 2);
            lemma_differs_at(s, lt_entity(), 1);
            lemma_differs_at(s, gt_entity(), 1);
            lemma_differs_at(s, quot_entity(), 1);
            assert(starts_with(s, apos_entity()));
        } else {
            assert(s[0] == c);
        }
        assert(unescape(s) == prepend(c, unescape(escape(rest))));
        assert forall|i: int| 0 <= i < s.len() implies #[trigger] s[i] != '<' by {
            if i >= e.len() {
                assert(s[i] == escape(rest)[i - e.len()]);
            }
        }
    }
}

/// The escaped form of a text is appended to `out`.
fn push_escaped(out: &mut String, s: &str)
    ensures
        final(out)@ == old(out)@ + escape(s@),
{
    let n = s.unicode_len();
    let mut i: usize = 0;
    assert(s@.take(0) =~= Seq::<char>::empty());
    assert(out@ =~= old(out)@ + escape(Seq::<char>::empty()));
    while i < n
        invariant
            i <= n == s@.len(),
            out@ == old(out)@ + escape(s@.take(i as int)),
        decreases n - i,
    {
        let c = s.get_char(i);
        proof {
            lemma_entity_literals();
        }
        if c == '&' {
            out.append("&amp;");
        } else if c == '<' {
            out.append("&lt;");
        } else if c == '>' {
            out.append("&gt;");
        } else if c == '"' {
            out.append("&quot;");
        } else if c == '\'' {
            out.append("&apos;");
        } else {
            let one = s.substring_char(i, i + 1);
            assert(one@ =~= seq![c]);
            out.append(one);
        }
        proof {
            lemma_escape_concat(s@.take(i as int), seq![c]);
            lemma_escape_single(c);
            assert(s@.take(i + 1) =~= s@.take(i as int) + seq![c]);
            assert(old(out)@ + escape(s@.take(i as int)) + escape_char(c) =~= old(out)@ + (escape(
                s@.take(i as int),
            ) + escape_char(c)));
        }
        i = i + 1;
    }
    assert(s@.take(n as int) =~= s@);
}

/// The text that the escaped text `s` stands for; `None` where an `&` begins
/// no known entity.
fn unescape_text(s: &str) -> (r: Option<String>)
    ensures
        match r {
            Some(t) => unescape(s@) == Some(t@),
            None => unescape(s@) is None,
        },
{
    let n = s.unicode_len();
    let mut out = String::new();
    let mut i: usize = 0;
    assert(s@.skip(0) =~= s@);
    assert(out@ + Seq::<char>::empty() =~= out@);
    while i < n
        invariant
            i <= n == s@.len(),
            unescape(s@) == match unescape(s@.skip(i as int)) {
                Some(t) => Some(out@ + t),
                None => None,
            },
        decreases n - i,
    {
        let ghost rest = s@.skip(i as int);
        let ghost before = out@;
        let ghost d: char;
        let c = s.get_char(i);
        let step: usize;
        proof {
            lemma_entity_literals();
        }
        assert(rest[0] == c);
        if c != '&' {
            let one = s.substring_char(i, i + 1);
            assert(one@ =~= seq![c]);
            out.append(one);
            step = 1;
            proof { d = c; }
        } else if matches_at(s, i, "&amp;") {
            out.append("&");
            step = 5;
            proof { d = '&'; }
        } else if matches_at(s, i, "&lt;") {
            out.append("<");
            step = 4;
            proof { d = '<'; }
        } else if matches_at(s, i, "&gt;") {
            out.append(">");
            step = 4;
            proof { d = '>'; }
        } else if matches_at(s, i, "&quot;") {
            out.append("\"");
            step = 6;
            proof { d = '"'; }
        } else if matches_at(s, i, "&apos;") {
            out.append("'");
            step = 6;
            proof { d = '\''; }
        } else {
            match char_reference(s, i) {
                Some((r, len)) => {
                    push_char(&mut out, r);
                    step = len;
                    proof {
                        d = r;
                    }
                },
                None => {
                    assert(unescape(rest) is None);
                    return None;
                },
            }
        }
        assert(rest.skip(step as int) =~= s@.skip(i + step));
        assert(unescape(rest) == prepend(d, unescape(s@.skip(i + step))));
        assert(out@ =~= before + seq![d]);
        proof {
            match unescape(s@.skip(i + step)) {
                Some(t) => {
                    assert(before + (seq![d] + t) =~= out@ + t);
                },
                None => {},
            }
        }
        i = i + step;
    }
    Some(out)
}

/// The tags of a document stand at `ea`, `et` and `es`, each at the first
/// `'<'` after the tag before it, and the document ends with the last one.
pub open spec fn tags_at(l: Seq<char>, ea: int, et: int, es: int) -> bool {
    &&& 14 <= ea && ea + 16 <= et && et + 16 <= es
    &&& starts_with(l.skip(0), "<Song><artist>"@)
    &&& l[ea] == '<'
    &&& (forall|k: int| 14 <= k < ea ==> l[k] != '<')
    &&& starts_with(l.skip(ea), "</artist><title>"@)
    &&& l[et] == '<'
    &&& (forall|k: int| ea + 16 <= k < et ==> l[k] != '<')
    &&& starts_with(l.skip(et), "</title><status>"@)
    &&& l[es] == '<'
    &&& (forall|k: int| et + 16 <= k < es ==> l[k] != '<')
    &&& starts_with(l.skip(es), "</status></Song>"@)
    &&& l.len() == es + 16
}

/// Where `l` is a document, its tags stand where a scan for `'<'` meets them.
proof fn lemma_document_scan(l: Seq<char>) -> (r: (int, int, int))
    ensures
        document_parts(l) is Some ==> tags_at(l, r.0, r.1, r.2),
{
    if let Some((a, t, s)) = document_parts(l) {
        assert(is_document_of(l, a, t, s));
        lemma_tag_positions(l, a, t, s);
        (14 + a.len() as int, 30 + a.len() as int + t.len() as int, 46 + a.len() as int
            + t.len() as int + s.len() as int)
    } else {
        (0, 0, 0)
    }
}

proof fn lemma_tag_positions(l: Seq<char>, a: Seq<char>, t: Seq<char>, s: Seq<char>)
    requires
        is_document_of(l, a, t, s),
    ensures
        tags_at(
            l,
            14 + a.len() as int,
            30 + a.len() as int + t.len() as int,
            46 + a.len() as int + t.len() as int + s.len() as int,
        ),
{
    reveal_strlit("<Song><artist>");
    reveal_strlit("</artist><title>");
    reveal_strlit("</title><status>");
    reveal_strlit("</status></Song>");
    let m1 = "</artist><title>"@;
    let m2 = "</title><status>"@;
    let c = "</status></Song>"@;
    let ea = 14 + a.len() as int;
    let et = ea + 16 + t.len() as int;
    let es = et + 16 + s.len() as int;
    assert(l.skip(0).take(14) =~= "<Song><artist>"@);
    assert(l.skip(ea).take(16) =~= m1);
    assert(l.skip(et).take(16) =~= m2);
    assert(l.skip(es).take(16) =~= c);
    assert(l[ea] == m1[0]);
    assert(l[et] == m2[0]);
    assert(l[es] == c[0]);
    assert forall|k: int| 14 <= k < ea implies l[k] != '<' by {
        assert(l[k] == a[k - 14]);
    }
    assert forall|k: int| ea + 16 <= k < et implies l[k] != '<' by {
        assert(l[k] == t[k - ea - 16]);
    }
    assert forall|k: int| et + 16 <= k < es implies l[k] != '<' by {
        assert(l[k] == s[k - et - 16]);
    }
}

/// Relies on char::from_u32: the character with code point `n`, where `n` is
/// one (at most 0x10FFFF and outside the surrogates).
#[verifier::external_body]
fn char_from_code(n: u32) -> (r: Option<char>)
    ensures
        r is Some <==> is_scalar(n as int),
        r matches Some(c) ==> code_point(c) == n as int,
{
    char::from_u32(n)
}

/// Relies on String::push: `c` is appended.
#[verifier::external_body]
fn push_char(out: &mut String, c: char)
    ensures
        final(out)@ == old(out)@.push(c),
{
    out.push(c)
}

proof fn lemma_char_of(c: char)
    ensures
        char_of(code_point(c)) == c,
{
    let d = char_of(code_point(c));
    assert(code_point(d) == code_point(c));
}

proof fn lemma_semicolon_index(s: Seq<char>, j: int)
    requires
        is_first_semicolon(s, j),
    ensures
        semicolon_index(s) == j,
{
    let k = choose|k: int| is_first_semicolon(s, k);
    assert(is_first_semicolon(s, k));
    if k < j {
        assert(s[k] != ';');
    } else if j < k {
        assert(s[j] != ';');
    }
}

proof fn lemma_no_semicolon(s: Seq<char>)
    requires
        forall|j: int| 0 <= j < s.len() ==> s[j] != ';',
    ensures
        semicolon_index(s) == -1,
{
    if exists|j: int| is_first_semicolon(s, j) {
        let k = choose|k: int| is_first_semicolon(s, k);
        assert(s[k] == ';');
    }
}

proof fn lemma_digits_grow(d: Seq<char>, k: int, hex: bool)
    requires
        0 <= k <= d.len(),
        forall|i: int| 0 <= i < d.len() ==> #[trigger] digit_value(d[i], hex) >= 0,
    ensures
        digits_value(d, hex) >= digits_value(d.take(k), hex) >= 0,
    decreases d.len(),
{
    if d.len() > 0 {
        if k == d.len() {
            assert(d.take(k) =~= d);
            lemma_digits_grow(d.drop_last(), k - 1, hex);
            assert(d.drop_last().take(k - 1) =~= d.drop_last());
        } else {
            lemma_digits_grow(d.drop_last(), k, hex);
            assert(d.drop_last().take(k) =~= d.take(k));
        }
    }
}

/// The character that a reference at position `i` of `s` stands for, and the
/// reference's length.
fn char_reference(s: &str, i: usize) -> (r: Option<(char, usize)>)
    requires
        i < s@.len(),
        s@[i as int] == '&',
    ensures
        match r {
            Some((c, n)) => starts_with_char_ref(s@.skip(i as int)) && c == char_of(
                digits_value(ref_digits(s@.skip(i as int)), s@[i + 2] == 'x'),
            ) && n == semicolon_index(s@.skip(i as int)) + 1,
            None => !starts_with_char_ref(s@.skip(i as int)),
        },
{
    let ghost rest = s@.skip(i as int);
    let len = s.unicode_len();
    if len - i < 3 || s.get_char(i + 1) != '#' {
        return None;
    }
    let hex = s.get_char(i + 2) == 'x';
    assert(rest[2] == s@[i + 2]);
    let start = if hex {
        i + 3
    } else {
        i + 2
    };
    let semi = match find_char(s, i, ';') {
        Some(k) => k,
        None => {
            proof {
                assert forall|j: int| 0 <= j < rest.len() implies rest[j] != ';' by {
                    assert(rest[j] == s@[i + j]);
                }
                lemma_no_semicolon(rest);
            }
            return None;
        },
    };
    proof {
        assert forall|k: int| 0 <= k < semi - i implies #[trigger] rest[k] != ';' by {
            assert(rest[k] == s@[i + k]);
        }
        assert(rest[semi - i] == s@[semi as int]);
        lemma_semicolon_index(rest, semi - i);
    }
    if semi <= start {
        return None;
    }
    let ghost d = ref_digits(rest);
    assert(d.len() == semi - start);
    let radix: u32 = if hex {
        16
    } else {
        10
    };
    let mut v: u32 = 0;
    let mut k: usize = start;
    assert(d.take(0) =~= Seq::<char>::empty());
    while k < semi
        invariant
            start <= k <= semi < s@.len(),
            rest == s@.skip(i as int),
            rest.len() >= 3,
            semicolon_index(rest) == semi - i,
            start == i + (if hex { 3int } else { 2int }),
            d == ref_digits(rest),
            d.len() == semi - start,
            radix == (if hex { 16int } else { 10int }),
            hex == (rest[2] == 'x'),
            v <= 0x10FFFF,
            v as int == digits_value(d.take(k - start), hex),
            forall|j: int| 0 <= j < k - start ==> #[trigger] digit_value(d[j], hex) >= 0,
        decreases semi - k,
    {
        let c = s.get_char(k);
        assert(d[k - start] == rest[k - i]);
        assert(d[k - start] == c);
        let dv: u32 = if '0' <= c && c <= '9' {
            (c as u32) - ('0' as u32)
        } else if hex && 'a' <= c && c <= 'f' {
            (c as u32) - ('a' as u32) + 10
        } else if hex && 'A' <= c && c <= 'F' {
            (c as u32) - ('A' as u32) + 10
        } else {
            assert(digit_value(d[k - start], hex) < 0);
            return None;
        };
        assert(d.take(k - start + 1).drop_last() =~= d.take(k - start));
        v = v * radix + dv;
        k = k + 1;
        if v > 0x10FFFF {
            proof {
                if all_digits(d, hex) {
                    lemma_digits_grow(d, k - start, hex);
                }
            }
            return None;
        }
    }
    assert(d.take(d.len() as int) =~= d);
    match char_from_code(v) {
        Some(c) => {
            proof {
                lemma_char_of(c);
            }
            Some((c, semi - i + 1))
        },
        None => None,
    }
}

/// Where the three texts of a document end: the positions of `</artist>`,
/// `</title>` and `</status>`.
fn split_document(line: &str) -> (r: Option<(usize, usize, usize)>)
    ensures
        match r {
            Some((ea, et, es)) => 14 <= ea && ea + 16 <= et && et + 16 <= es && es + 16
                == line@.len() && is_document_of(
                line@,
                line@.subrange(14, ea as int),
                line@.subrange(ea + 16, et as int),
                line@.subrange(et + 16, es as int),
            ),
            None => document_parts(line@) is None,
        },
{
    let ghost l = line@;
    let ghost (pa, pt, ps) = lemma_document_scan(l);
    let n = line.unicode_len();
    if n < 14 || !matches_at(line, 0, "<Song><artist>") {
        return None;
    }
    let ea = match find_markup(line, 14) {
        Some(k) => k,
        None => {
            return None;
        },
    };
    assert(document_parts(l) is Some ==> ea == pa);
    if n - ea < 16 || !matches_at(line, ea, "</artist><title>") {
        return None;
    }
    let et = match find_markup(line, ea + 16) {
        Some(k) => k,
        None => {
            return None;
        },
    };
    assert(document_parts(l) is Some ==> et == pt);
    if n - et < 16 || !matches_at(line, et, "</title><status>") {
        return None;
    }
    let es = match find_markup(line, et + 16) {
        Some(k) => k,
        None => {
            return None;
        },
    };
    assert(document_parts(l) is Some ==> es == ps);
    if n - es != 16 || !matches_at(line, es, "</status></Song>") {
        return None;
    }
    proof {
        lemma_assemble(l, ea as int, et as int, es as int);
    }
    Some((ea, et, es))
}

proof fn lemma_assemble(l: Seq<char>, ea: int, et: int, es: int)
    requires
        14 <= ea,
        ea + 16 <= et,
        et + 16 <= es,
        es + 16 == l.len(),
        starts_with(l.skip(0), "<Song><artist>"@),
        starts_with(l.skip(ea), "</artist><title>"@),
        starts_with(l.skip(et), "</title><status>"@),
        starts_with(l.skip(es), "</status></Song>"@),
        forall|k: int| 14 <= k < ea ==> l[k] != '<',
        forall|k: int| ea + 16 <= k < et ==> l[k] != '<',
        forall|k: int| et + 16 <= k < es ==> l[k] != '<',
    ensures
        is_document_of(l, l.subrange(14, ea), l.subrange(ea + 16, et), l.subrange(et + 16, es)),
{
    reveal_strlit("<Song><artist>");
    reveal_strlit("</artist><title>");
    reveal_strlit("</title><status>");
    reveal_strlit("</status></Song>");
    let a = l.subrange(14, ea);
    let t = l.subrange(ea + 16, et);
    let s = l.subrange(et + 16, es);
    let d = document(a, t, s);
    assert(no_markup(a)) by {
        assert forall|k: int| 0 <= k < a.len() implies a[k] != '<' by {
            assert(a[k] == l[k + 14]);
        }
    }
    assert(no_markup(t)) by {
        assert forall|k: int| 0 <= k < t.len() implies t[k] != '<' by {
            assert(t[k] == l[k + ea + 16]);
        }
    }
    assert(no_markup(s)) by {
        assert forall|k: int| 0 <= k < s.len() implies s[k] != '<' by {
            assert(s[k] == l[k + et + 16]);
        }
    }
    assert(l.skip(0).take(14) =~= l.take(14));
    assert(d.len() == l.len());
    assert forall|k: int| 0 <= k < l.len() implies d[k] == l[k] by {
        if k < 14 {
            assert(l.take(14)[k] == l[k]);
        } else if k < ea {
        } else if k < ea + 16 {
            assert(l.skip(ea).take(16)[k - ea] == l[k]);
        } else if k < et {
        } else if k < et + 16 {
            assert(l.skip(et).take(16)[k - et] == l[k]);
        } else if k < es {
        } else {
            assert(l.skip(es).take(16)[k - es] == l[k]);
        }
    }
    assert(l =~= d);
}

/// A song written as a document and read back is the same song, field for
/// field.
pub proof fn lemma_document_round_trip(song: SongView)
    ensures
        parse_document(encode_document(song)) == Some(song),
{
    lemma_unescape_escape(song.artist);
    lemma_unescape_escape(song.title);
    lemma_unescape_escape(song.status);
    let l = encode_document(song);
    assert(is_document_of(l, escape(song.artist), escape(song.title), escape(song.status)));
    lemma_document_parts(l, escape(song.artist), escape(song.title), escape(song.status));
}

impl Song {
    /// The one-line document that carries this song, with its texts escaped.
    pub fn to_document(&self) -> (r: String)
        ensures
            r@ == encode_document(self@),
    {
        let mut out = String::from_str("<Song><artist>");
        push_escaped(&mut out, self.artist.as_str());
        out.append("</artist><title>");
        push_escaped(&mut out, self.title.as_str());
        out.append("</title><status>");
        push_escaped(&mut out, self.status.as_str());
        out.append("</status></Song>");
        out
    }

    /// Reads the song that a line of the player's output carries.
    pub fn parse(line: &str) -> (r: Result<Song, ParseError>)
        ensures
            match r {
                Ok(song) => parse_document(line@) == Some(song@),
                Err(ParseError::Malformed) => document_parts(line@) is None,
                Err(ParseError::BadEntity) => document_parts(line@) is Some && parse_document(
                    line@,
                ) is None,
            },
            r is Ok <==> parse_document(line@) is Some,
    {
        let (ea, et, es) = match split_document(line) {
            Some(p) => p,
            None => {
                return Err(ParseError::Malformed);
            },
        };
        let ghost a = line@.subrange(14, ea as int);
        let ghost t = line@.subrange(ea + 16, et as int);
        let ghost s = line@.subrange(et + 16, es as int);
        proof {
            lemma_document_parts(line@, a, t, s);
        }
        let artist = match unescape_text(line.substring_char(14, ea)) {
            Some(x) => x,
            None => {
                return Err(ParseError::BadEntity);
            },
        };
        let title = match unescape_text(line.substring_char(ea + 16, et)) {
            Some(x) => x,
            None => {
                return Err(ParseError::BadEntity);
            },
        };
        let status = match unescape_text(line.substring_char(et + 16, es)) {
            Some(x) => x,
            None => {
                return Err(ParseError::BadEntity);
            },
        };
        Ok(Song { artist, title, status })
    }
}

} // verus!
