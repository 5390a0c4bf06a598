//! The JSON texts of the wire protocol and of the persisted ledger.
//!
//! Every message this server reads or writes, and the ledger file it
//! keeps across restarts, is one JSON object whose fields are strings:
//! `{"comic":…}`, `{"comic":…,"page":…}`, and the comic-to-page object
//! of the ledger; the one exception is the fixed shutdown notice
//! `{"disconnect":true}`.  This module states that grammar as spec
//! functions and gives verified writers and readers for it.  A frame
//! outside the grammar decodes to nothing: the read loop treats such
//! frames as noise and drops them rather than failing the connection.

use vstd::prelude::*;

verus! {

/// The field that names the comic.
pub open spec fn comic_key() -> Seq<char> {
    seq!['c', 'o', 'm', 'i', 'c']
}

/// The field that names the page.
pub open spec fn page_key() -> Seq<char> {
    seq!['p', 'a', 'g', 'e']
}

/// The lower-case hex digit for a value below 16.
pub open spec fn hex_char(n: int) -> char {
    if n == 0 {
        '0'
    } else if n == 1 {
        '1'
    } else if n == 2 {
        '2'
    } else if n == 3 {
        '3'
    } else if n == 4 {
        '4'
    } else if n == 5 {
        '5'
    } else if n == 6 {
        '6'
    } else if n == 7 {
        '7'
    } else if n == 8 {
        '8'
    } else if n == 9 {
        '9'
    } else if n == 10 {
        'a'
    } else if n == 11 {
        'b'
    } else if n == 12 {
        'c'
    } else if n == 13 {
        'd'
    } else if n == 14 {
        'e'
    } else {
        'f'
    }
}

/// How one character is written inside a JSON string: quote and
/// backslash get a backslash escape, control characters a `\u00XX`
/// escape, everything else stands as itself.
pub open spec fn spec_escape_char(c: char) -> Seq<char> {
    if c == '"' {
        seq!['\\', '"']
    } else if c == '\\' {
        seq!['\\', '\\']
    } else if (c as int) < 32 {
        seq!['\\', 'u', '0', '0', hex_char((c as int) / 16), hex_char((c as int) % 16)]
    } else {
        seq![c]
    }
}

/// The escaped text of a whole string.
pub open spec fn spec_escape(s: Seq<char>) -> Seq<char>
    decreases s.len(),
{
    if s.len() == 0 {
        Seq::empty()
    } else {
        spec_escape_char(s[0]) + spec_escape(s.skip(1))
    }
}

/// A string value on the wire: its escaped text between quotes.
pub open spec fn spec_quoted(s: Seq<char>) -> Seq<char> {
    seq!['"'] + spec_escape(s) + seq!['"']
}

/// One `"key":"value"` member.
pub open spec fn spec_member(k: Seq<char>, v: Seq<char>) -> Seq<char> {
    spec_quoted(k) + seq![':'] + spec_quoted(v)
}

/// The members of an object, separated by commas.
pub open spec fn spec_members(ps: Seq<(Seq<char>, Seq<char>)>) -> Seq<char>
    decreases ps.len(),
{
    if ps.len() == 0 {
        Seq::empty()
    } else if ps.len() == 1 {
        spec_member(ps[0].0, ps[0].1)
    } else {
        spec_member(ps[0].0, ps[0].1) + seq![','] + spec_members(ps.skip(1))
    }
}

/// A whole object: the members between braces.
pub open spec fn spec_object(ps: Seq<(Seq<char>, Seq<char>)>) -> Seq<char> {
    seq!['{'] + spec_members(ps) + seq!['}']
}

/// The broadcast and page-reply message `{"comic":…,"page":…}`.
pub open spec fn spec_page_message(comic: Seq<char>, page: Seq<char>) -> Seq<char> {
    spec_object(seq![(comic_key(), comic), (page_key(), page)])
}

/// The reply `{"comic":…}` for a comic without a known page.
pub open spec fn spec_comic_message(comic: Seq<char>) -> Seq<char> {
    spec_object(seq![(comic_key(), comic)])
}

/// The shutdown notice `{"disconnect":true}`.
pub open spec fn spec_disconnect_message() -> Seq<char> {
    seq!['{', '"', 'd', 'i', 's', 'c', 'o', 'n', 'n', 'e', 'c', 't', '"', ':', 't', 'r', 'u', 'e', '}']
}

/// The members of a vector of string pairs, seen as character sequences.
pub open spec fn pairs_view(v: Seq<(String, String)>) -> Seq<(Seq<char>, Seq<char>)> {
    v.map_values(|p: (String, String)| (p.0@, p.1@))
}

/// Relies on `String::push`: appends exactly the one character.
#[verifier::external_body]
fn push_char(s: &mut String, c: char)
    ensures
        final(s)@ == old(s)@.push(c),
{
    s.push(c);
}

/// Relies on `char::from_u32`: `Some` exactly for the values that are
/// no surrogate and at most `0x10FFFF`, and the character has the
/// given value.
#[verifier::external_body]
fn char_from_u32(n: u32) -> (r: Option<char>)
    ensures
        r is Some <==> (n < 0xD800 || (0xE000 <= n && n <= 0x10FFFF)),
        r matches Some(c) ==> (c as int) == n as int,
{
    char::from_u32(n)
}

proof fn lemma_escape_concat(u: Seq<char>, v: Seq<char>)
    ensures
        spec_escape(u + v) == spec_escape(u) + spec_escape(v),
    decreases u.len(),
{
    if u.len() == 0 {
        assert(u + v =~= v);
        assert(spec_escape(u) + spec_escape(v) =~= spec_escape(v));
    } else {
        assert((u + v).skip(1) =~= u.skip(1) + v);
        lemma_escape_concat(u.skip(1), v);
        assert((u + v)[0] == u[0]);
        assert(spec_escape(u + v) =~= spec_escape(u) + spec_escape(v));
    }
}

proof fn lemma_escape_snoc(s: Seq<char>, k: int)
    requires
        0 <= k < s.len(),
    ensures
        spec_escape(s.take(k + 1)) == spec_escape(s.take(k)) + spec_escape_char(s[k]),
{
    assert(s.take(k + 1) =~= s.take(k) + seq![s[k]]);
    lemma_escape_concat(s.take(k), seq![s[k]]);
    let t = seq![s[k]];
    assert(t.skip(1) =~= Seq::<char>::empty());
    assert(spec_escape(t.skip(1)) =~= Seq::<char>::empty());
    assert(t[0] == s[k]);
    assert(spec_escape(t) =~= spec_escape_char(s[k]));
}

/// Characters that stand for themselves inside a JSON string.
pub open spec fn plain_char(c: char) -> bool {
    c != '"' && c != '\\' && (c as int) >= 32
}

proof fn lemma_escape_plain(s: Seq<char>)
    requires
        forall|k: int| 0 <= k < s.len() ==> plain_char(s[k]),
    ensures
        spec_escape(s) == s,
    decreases s.len(),
{
    if s.len() == 0 {
        assert(spec_escape(s) =~= s);
    } else {
        assert(plain_char(s[0]));
        lemma_escape_plain(s.skip(1));
        assert(spec_escape(s) =~= s);
    }
}

fn hex_char_exec(n: u32) -> (r: char)
    requires
        n < 16,
    ensures
        r == hex_char(n as int),
{
    if n == 0 {
        '0'
    } else if n == 1 {
        '1'
    } else if n == 2 {
        '2'
    } else if n == 3 {
        '3'
    } else if n == 4 {
        '4'
    } else if n == 5 {
        '5'
    } else if n == 6 {
        '6'
    } else if n == 7 {
        '7'
    } else if n == 8 {
        '8'
    } else if n == 9 {
        '9'
    } else if n == 10 {
        'a'
    } else if n == 11 {
        'b'
    } else if n == 12 {
        'c'
    } else if n == 13 {
        'd'
    } else if n == 14 {
        'e'
    } else {
        'f'
    }
}

fn push_escaped_char(out: &mut String, c: char)
    ensures
        final(out)@ == old(out)@ + spec_escape_char(c),
{
    if c == '"' {
        push_char(out, '\\');
        push_char(out, '"');
        proof {
            assert(out@ =~= old(out)@ + spec_escape_char(c));
        }
    } else if c == '\\' {
        push_char(out, '\\');
        push_char(out, '\\');
        proof {
            assert(out@ =~= old(out)@ + spec_escape_char(c));
        }
    } else if (c as u32) < 32 {
        push_char(out, '\\');
        push_char(out, 'u');
        push_char(out, '0');
        push_char(out, '0');
        let n: u32 = c as u32;
        let hi = hex_char_exec(n / 16);
        let lo = hex_char_exec(n % 16);
        push_char(out, hi);
        push_char(out, lo);
        proof {
            assert(out@ =~= old(out)@ + spec_escape_char(c));
        }
    } else {
        push_char(out, c);
        proof {
            assert(out@ =~= old(out)@ + spec_escape_char(c));
        }
    }
}

fn push_quoted(out: &mut String, s: &str)
    ensures
        final(out)@ == old(out)@ + spec_quoted(s@),
{
    push_char(out, '"');
    let n = s.unicode_len();
    let mut k: usize = 0;
    proof {
        assert(s@.take(0) =~= Seq::<char>::empty());
        assert(out@ =~= old(out)@ + seq!['"'] + spec_escape(s@.take(0)));
    }
    while k < n
        invariant
            k <= n,
            n == s@.len(),
            out@ == old(out)@ + seq!['"'] + spec_escape(s@.take(k as int)),
        decreases n - k,
    {
        let c = s.get_char(k);
        push_escaped_char(out, c);
        proof {
            lemma_escape_snoc(s@, k as int);
            assert(out@ =~= old(out)@ + seq!['"'] + spec_escape(s@.take(k as int + 1)));
        }
        k = k + 1;
    }
    push_char(out, '"');
    proof {
        assert(s@.take(n as int) =~= s@);
        assert(out@ =~= old(out)@ + spec_quoted(s@));
    }
}

proof fn lemma_key_escapes()
    ensures
        spec_escape(comic_key()) == comic_key(),
        spec_escape(page_key()) == page_key(),
{
    assert forall|k: int| 0 <= k < comic_key().len() implies plain_char(comic_key()[k]) by {}
    lemma_escape_plain(comic_key());
    assert forall|k: int| 0 <= k < page_key().len() implies plain_char(page_key()[k]) by {}
    lemma_escape_plain(page_key());
}

/// Writes the page-turn message `{"comic":…,"page":…}` that is
/// broadcast to the other readers and returned to page queries.
pub fn encode_page_message(comic: &str, page: &str) -> (r: String)
    ensures
        r@ == spec_page_message(comic@, page@),
{
    let mut out = String::new();
    out.append("{\"comic\":");
    push_quoted(&mut out, comic);
    out.append(",\"page\":");
    push_quoted(&mut out, page);
    out.append("}");
    proof {
        reveal_strlit("{\"comic\":");
        reveal_strlit(",\"page\":");
        reveal_strlit("}");
        lemma_key_escapes();
        let ps = seq![(comic_key(), comic@), (page_key(), page@)];
        let tail = seq![(page_key(), page@)];
        assert(ps.skip(1) =~= tail);
        assert(spec_members(tail) =~= spec_member(page_key(), page@));
        assert(ps[0] == (comic_key(), comic@));
        assert(spec_members(ps) =~= spec_member(comic_key(), comic@) + seq![','] + spec_member(
            page_key(),
            page@,
        ));
        assert(spec_member(comic_key(), comic@) =~= seq!['"'] + comic_key() + seq!['"'] + seq![':']
            + spec_quoted(comic@));
        assert(spec_member(page_key(), page@) =~= seq!['"'] + page_key() + seq!['"'] + seq![':']
            + spec_quoted(page@));
        assert("{\"comic\":"@ =~= seq!['{'] + seq!['"'] + comic_key() + seq!['"'] + seq![':']);
        assert(",\"page\":"@ =~= seq![','] + seq!['"'] + page_key() + seq!['"'] + seq![':']);
        assert("}"@ =~= seq!['}']);
        assert(out@ =~= spec_page_message(comic@, page@));
    }
    out
}

/// Writes the reply `{"comic":…}` for a comic without a known page.
pub fn encode_comic_message(comic: &str) -> (r: String)
    ensures
        r@ == spec_comic_message(comic@),
{
    let mut out = String::new();
    out.append("{\"comic\":");
    push_quoted(&mut out, comic);
    out.append("}");
    proof {
        reveal_strlit("{\"comic\":");
        reveal_strlit("}");
        lemma_key_escapes();
        assert(out@ =~= spec_comic_message(comic@));
    }
    out
}

/// Writes the shutdown notice `{"disconnect":true}`.
pub fn disconnect_message() -> (r: String)
    ensures
        r@ == spec_disconnect_message(),
{
    let r = String::from_str("{\"disconnect\":true}");
    proof {
        reveal_strlit("{\"disconnect\":true}");
        assert(r@ =~= spec_disconnect_message());
    }
    r
}

proof fn lemma_members_snoc(ps: Seq<(Seq<char>, Seq<char>)>, k: int)
    requires
        0 < k < ps.len(),
    ensures
        spec_members(ps.take(k + 1)) == spec_members(ps.take(k)) + seq![','] + spec_member(
            ps[k].0,
            ps[k].1,
        ),
    decreases k,
{
    if k == 1 {
        let t1 = seq![ps[1]];
        assert(ps.take(2).skip(1) =~= t1);
        assert(spec_members(t1) =~= spec_member(ps[1].0, ps[1].1));
        assert(ps.take(1) =~= seq![ps[0]]);
        assert(ps.take(2)[0] == ps[0]);
        assert(ps.take(1)[0] == ps[0]);
        assert(spec_members(ps.take(2)) =~= spec_members(ps.take(1)) + seq![','] + spec_member(
            ps[1].0,
            ps[1].1,
        ));
    } else {
        lemma_members_snoc(ps.skip(1), k - 1);
        assert(ps.take(k + 1).skip(1) =~= ps.skip(1).take(k));
        assert(ps.take(k).skip(1) =~= ps.skip(1).take(k - 1));
        assert(ps.take(k + 1)[0] == ps[0]);
        assert(ps.take(k)[0] == ps[0]);
        assert(ps.skip(1)[k - 1] == ps[k]);
        assert(spec_members(ps.take(k + 1)) =~= spec_members(ps.take(k)) + seq![','] + spec_member(
            ps[k].0,
            ps[k].1,
        ));
    }
}

/// Writes a whole object of string fields, the members in order: the
/// form of the persisted ledger.
pub fn encode_object(pairs: &Vec<(String, String)>) -> (r: String)
    ensures
        r@ == spec_object(pairs_view(pairs@)),
{
    let ghost view = pairs_view(pairs@);
    let mut out = String::new();
    push_char(&mut out, '{');
    let n = pairs.len();
    let mut k: usize = 0;
    proof {
        assert(view.take(0) =~= Seq::<(Seq<char>, Seq<char>)>::empty());
        assert(out@ =~= seq!['{'] + spec_members(view.take(0)));
    }
    while k < n
        invariant
            k <= n,
            n == pairs@.len(),
            view == pairs_view(pairs@),
            out@ == seq!['{'] + spec_members(view.take(k as int)),
        decreases n - k,
    {
        if k > 0 {
            push_char(&mut out, ',');
        }
        let p = &pairs[k];
        push_quoted(&mut out, p.0.as_str());
        push_char(&mut out, ':');
        push_quoted(&mut out, p.1.as_str());
        proof {
            assert(view[k as int] == (pairs@[k as int].0@, pairs@[k as int].1@));
            if k == 0 {
                assert(view.take(1) =~= seq![view[0]]);
                assert(out@ =~= seq!['{'] + spec_members(view.take(1)));
            } else {
                lemma_members_snoc(view, k as int);
                assert(out@ =~= seq!['{'] + spec_members(view.take(k as int + 1)));
            }
        }
        k = k + 1;
    }
    push_char(&mut out, '}');
    proof {
        assert(view.take(n as int) =~= view);
        assert(out@ =~= spec_object(view));
    }
    out
}

/// JSON whitespace.
pub open spec fn is_ws(c: char) -> bool {
    c == ' ' || c == '\t' || c == '\n' || c == '\r'
}

/// The first position at or after `i` that holds no whitespace.
pub open spec fn spec_skip_ws(s: Seq<char>, i: int) -> int
    decreases s.len() - i,
{
    if 0 <= i < s.len() && is_ws(s[i]) {
        spec_skip_ws(s, i + 1)
    } else {
        i
    }
}

/// A hex digit of either case.
pub open spec fn is_hex(c: char) -> bool {
    (('0' as int) <= (c as int) && (c as int) <= ('9' as int)) || (('a' as int) <= (c as int) && (c
        as int) <= ('f' as int)) || (('A' as int) <= (c as int) && (c as int) <= ('F' as int))
}

/// The value of a hex digit of either case.
pub open spec fn hex_val(c: char) -> int {
    if ('0' as int) <= (c as int) && (c as int) <= ('9' as int) {
        (c as int) - ('0' as int)
    } else if ('a' as int) <= (c as int) && (c as int) <= ('f' as int) {
        10 + (c as int) - ('a' as int)
    } else {
        10 + (c as int) - ('A' as int)
    }
}

/// The character named by a single-letter escape, if any.
pub open spec fn spec_escape_code(e: char) -> Option<char> {
    if e == '"' {
        Some('"')
    } else if e == '\\' {
        Some('\\')
    } else if e == '/' {
        Some('/')
    } else if e == 'b' {
        Some('\u{0008}')
    } else if e == 'f' {
        Some('\u{000C}')
    } else if e == 'n' {
        Some('\n')
    } else if e == 'r' {
        Some('\r')
    } else if e == 't' {
        Some('\t')
    } else {
        None
    }
}

/// Reads a JSON string from just after its opening quote: the decoded
/// characters and the position after the closing quote.  Unterminated
/// strings, unknown escapes, surrogate code units and raw control
/// characters give `None`.
pub open spec fn spec_string_body(s: Seq<char>, i: int) -> Option<(Seq<char>, int)>
    decreases s.len() - i,
{
    if i < 0 || i >= s.len() {
        None
    } else if s[i] == '"' {
        Some((Seq::empty(), i + 1))
    } else if s[i] == '\\' {
        if i + 2 > s.len() {
            None
        } else if s[i + 1] == 'u' {
            if i + 6 > s.len() {
                None
            } else if !(is_hex(s[i + 2]) && is_hex(s[i + 3]) && is_hex(s[i + 4]) && is_hex(
                s[i + 5],
            )) {
                None
            } else {
                let code = hex_val(s[i + 2]) * 4096 + hex_val(s[i + 3]) * 256 + hex_val(s[i + 4])
                    * 16 + hex_val(s[i + 5]);
                if 0xD800 <= code < 0xE000 {
                    None
                } else {
                    match spec_string_body(s, i + 6) {
                        None => None,
                        Some((rest, j)) => Some((seq![code as char] + rest, j)),
                    }
                }
            }
        } else {
            match spec_escape_code(s[i + 1]) {
                None => None,
                Some(c) => match spec_string_body(s, i + 2) {
                    None => None,
                    Some((rest, j)) => Some((seq![c] + rest, j)),
                },
            }
        }
    } else if (s[i] as int) < 32 {
        None
    } else {
        match spec_string_body(s, i + 1) {
            None => None,
            Some((rest, j)) => Some((seq![s[i]] + rest, j)),
        }
    }
}

proof fn lemma_skip_ws_bounds(s: Seq<char>, i: int)
    requires
        0 <= i <= s.len(),
    ensures
        i <= spec_skip_ws(s, i) <= s.len(),
    decreases s.len() - i,
{
    if i < s.len() && is_ws(s[i]) {
        lemma_skip_ws_bounds(s, i + 1);
    }
}

proof fn lemma_string_body_advances(s: Seq<char>, i: int)
    ensures
        spec_string_body(s, i) matches Some((cs, j)) ==> i < j <= s.len(),
    decreases s.len() - i,
{
    if 0 <= i < s.len() {
        if s[i] == '\\' {
            if i + 2 <= s.len() && s[i + 1] == 'u' {
                if i + 6 <= s.len() {
                    lemma_string_body_advances(s, i + 6);
                }
            } else if i + 2 <= s.len() {
                lemma_string_body_advances(s, i + 2);
            }
        } else {
            lemma_string_body_advances(s, i + 1);
        }
    }
}

/// Reads `"key":"value"` members from `i` up to and including the
/// closing brace: the members in order and the position after it.
pub open spec fn spec_members_from(s: Seq<char>, i: int) -> Option<
    (Seq<(Seq<char>, Seq<char>)>, int),
>
    decreases s.len() - i,
    via spec_members_from_decreases
{
    if i < 0 || i > s.len() {
        None
    } else {
        let k0 = spec_skip_ws(s, i);
        if k0 >= s.len() || s[k0] != '"' {
            None
        } else {
            match spec_string_body(s, k0 + 1) {
                None => None,
                Some((key, j1)) => {
                    let k1 = spec_skip_ws(s, j1);
                    if k1 >= s.len() || s[k1] != ':' {
                        None
                    } else {
                        let k2 = spec_skip_ws(s, k1 + 1);
                        if k2 >= s.len() || s[k2] != '"' {
                            None
                        } else {
                            match spec_string_body(s, k2 + 1) {
                                None => None,
                                Some((val, j2)) => {
                                    let k3 = spec_skip_ws(s, j2);
                                    if k3 >= s.len() {
                                        None
                                    } else if s[k3] == ',' {
                                        match spec_members_from(s, k3 + 1) {
                                            None => None,
                                            Some((rest, j4)) => Some(
                                                (seq![(key, val)] + rest, j4),
                                            ),
                                        }
                                    } else if s[k3] == '}' {
                                        Some((seq![(key, val)], k3 + 1))
                                    } else {
                                        None
                                    }
                                },
                            }
                        }
                    }
                },
            }
        }
    }
}

#[via_fn]
proof fn spec_members_from_decreases(s: Seq<char>, i: int) {
    if 0 <= i <= s.len() {
        lemma_skip_ws_bounds(s, i);
        let k0 = spec_skip_ws(s, i);
        if k0 < s.len() && s[k0] == '"' {
            lemma_string_body_advances(s, k0 + 1);
            match spec_string_body(s, k0 + 1) {
                Some((key, j1)) => {
                    lemma_skip_ws_bounds(s, j1);
                    let k1 = spec_skip_ws(s, j1);
                    if k1 < s.len() && s[k1] == ':' {
                        lemma_skip_ws_bounds(s, k1 + 1);
                        let k2 = spec_skip_ws(s, k1 + 1);
                        if k2 < s.len() && s[k2] == '"' {
                            lemma_string_body_advances(s, k2 + 1);
                            match spec_string_body(s, k2 + 1) {
                                Some((val, j2)) => {
                                    lemma_skip_ws_bounds(s, j2);
                                },
                                None => {},
                            }
                        }
                    }
                },
                None => {},
            }
        }
    }
}

proof fn lemma_members_from_bounds(s: Seq<char>, i: int)
    ensures
        spec_members_from(s, i) matches Some((ps, j)) ==> i < j <= s.len(),
    decreases s.len() - i,
{
    if 0 <= i <= s.len() {
        lemma_skip_ws_bounds(s, i);
        let k0 = spec_skip_ws(s, i);
        if k0 < s.len() && s[k0] == '"' {
            lemma_string_body_advances(s, k0 + 1);
            match spec_string_body(s, k0 + 1) {
                Some((key, j1)) => {
                    lemma_skip_ws_bounds(s, j1);
                    let k1 = spec_skip_ws(s, j1);
                    if k1 < s.len() && s[k1] == ':' {
                        lemma_skip_ws_bounds(s, k1 + 1);
                        let k2 = spec_skip_ws(s, k1 + 1);
                        if k2 < s.len() && s[k2] == '"' {
                            lemma_string_body_advances(s, k2 + 1);
                            match spec_string_body(s, k2 + 1) {
                                Some((val, j2)) => {
                                    lemma_skip_ws_bounds(s, j2);
                                    let k3 = spec_skip_ws(s, j2);
                                    if k3 < s.len() && s[k3] == ',' {
                                        lemma_members_from_bounds(s, k3 + 1);
                                    }
                                },
                                None => {},
                            }
                        }
                    }
                },
                None => {},
            }
        }
    }
}

/// A whole text read as a JSON object of string fields: the members
/// in writing order.  Any other text gives `None`.
pub open spec fn spec_parse_object(s: Seq<char>) -> Option<Seq<(Seq<char>, Seq<char>)>> {
    let k0 = spec_skip_ws(s, 0);
    if k0 >= s.len() || s[k0] != '{' {
        None
    } else {
        let k1 = spec_skip_ws(s, k0 + 1);
        if k1 < s.len() && s[k1] == '}' {
            if spec_skip_ws(s, k1 + 1) == s.len() {
                Some(Seq::empty())
            } else {
                None
            }
        } else {
            match spec_members_from(s, k0 + 1) {
                None => None,
                Some((ps, j)) => if spec_skip_ws(s, j) == s.len() {
                    Some(ps)
                } else {
                    None
                },
            }
        }
    }
}

/// The value of the last member carrying the given key, as a JSON
/// object keeps the later of two bindings of one name.
pub open spec fn spec_lookup(ps: Seq<(Seq<char>, Seq<char>)>, key: Seq<char>) -> Option<Seq<char>>
    decreases ps.len(),
{
    if ps.len() == 0 {
        None
    } else if ps.last().0 == key {
        Some(ps.last().1)
    } else {
        spec_lookup(ps.drop_last(), key)
    }
}

/// What an inbound frame means: nothing for a text outside the
/// grammar or without a `comic` field; otherwise the comic and, when
/// present, the reported page.
pub open spec fn spec_parse_inbound(s: Seq<char>) -> Option<(Seq<char>, Option<Seq<char>>)> {
    match spec_parse_object(s) {
        None => None,
        Some(ps) => match spec_lookup(ps, comic_key()) {
            None => None,
            Some(comic) => Some((comic, spec_lookup(ps, page_key()))),
        },
    }
}

proof fn lemma_char_bounds(c: char)
    ensures
        0 <= c as int <= 0x10FFFF,
{
}

proof fn lemma_hex_round(n: int)
    requires
        0 <= n < 16,
    ensures
        is_hex(hex_char(n)),
        hex_val(hex_char(n)) == n,
{
}

proof fn lemma_parse_escaped(t: Seq<char>, i: int, s: Seq<char>)
    requires
        0 <= i,
        i + spec_escape(s).len() + 1 <= t.len(),
        t.subrange(i, i + spec_escape(s).len()) == spec_escape(s),
        t[i + spec_escape(s).len()] == '"',
    ensures
        spec_string_body(t, i) == Some((s, i + spec_escape(s).len() + 1)),
    decreases s.len(),
{
    if s.len() == 0 {
        assert(spec_escape(s).len() == 0);
        assert(t[i] == '"');
    } else {
        let c0 = s[0];
        let e0 = spec_escape_char(c0);
        let tail = s.skip(1);
        let el = e0.len() as int;
        let full = spec_escape(s);
        assert(full == e0 + spec_escape(tail));
        assert(full.len() == el + spec_escape(tail).len());
        assert forall|x: int| 0 <= x < full.len() implies t[i + x] == full[x] by {
            assert(t.subrange(i, i + full.len())[x] == t[i + x]);
        }
        assert forall|x: int| 0 <= x < el implies t[i + x] == e0[x] by {
            assert(full[x] == e0[x]);
        }
        assert(t[i + 0] == e0[0]);
        assert(t[i] == e0[0]);
        assert(t.subrange(i + el, i + el + spec_escape(tail).len()) =~= spec_escape(tail)) by {
            assert forall|x: int| 0 <= x < spec_escape(tail).len() implies t[i + el + x]
                == spec_escape(tail)[x] by {
                assert(full[el + x] == spec_escape(tail)[x]);
            }
        }
        lemma_parse_escaped(t, i + el, tail);
        if c0 == '"' {
            assert(t[i] == '\\' && t[i + 1] == '"');
            assert(seq![c0] + tail =~= s);
        } else if c0 == '\\' {
            assert(t[i] == '\\' && t[i + 1] == '\\');
            assert(seq![c0] + tail =~= s);
        } else if (c0 as int) < 32 {
            let cv = c0 as int;
            lemma_char_bounds(c0);
            assert(0 <= cv);
            assert(t[i] == '\\' && t[i + 1] == 'u' && t[i + 2] == '0' && t[i + 3] == '0');
            assert(t[i + 4] == hex_char(cv / 16) && t[i + 5] == hex_char(cv % 16));
            lemma_hex_round(cv / 16);
            lemma_hex_round(cv % 16);
            let code = hex_val(t[i + 2]) * 4096 + hex_val(t[i + 3]) * 256 + hex_val(t[i + 4]) * 16
                + hex_val(t[i + 5]);
            assert(code == cv);
            let sc = (code as char);
            assert(sc as int == cv);
            assert(sc == c0);
            assert(seq![sc] + tail =~= s);
        } else {
            assert(t[i] == c0);
            assert(seq![c0] + tail =~= s);
        }
    }
}

proof fn lemma_parse_members_of(t: Seq<char>, i: int, ps: Seq<(Seq<char>, Seq<char>)>)
    requires
        ps.len() >= 1,
        1 <= i,
        i + spec_members(ps).len() + 1 == t.len(),
        t.subrange(i, i + spec_members(ps).len()) == spec_members(ps),
        t[t.len() - 1] == '}',
    ensures
        spec_members_from(t, i) == Some((ps, t.len() as int)),
    decreases ps.len(),
{
    let k = ps[0].0;
    let v = ps[0].1;
    let m0 = spec_member(k, v);
    let ms = spec_members(ps);
    let ek = spec_escape(k);
    let ev = spec_escape(v);
    let ekl = ek.len() as int;
    let evl = ev.len() as int;
    let m0len = m0.len() as int;
    let shape = seq!['"'] + ek + seq!['"', ':', '"'] + ev + seq!['"'];
    assert(m0 =~= shape);
    assert(m0len == 5 + ekl + evl);
    let sub = t.subrange(i, i + ms.len() as int);
    assert(sub == ms);
    assert forall|x: int| 0 <= x < ms.len() implies t[i + x] == ms[x] by {
        assert(sub[x] == t[i + x]);
    }
    if ps.len() > 1 {
        assert(ms == m0 + seq![','] + spec_members(ps.skip(1)));
    }
    assert forall|x: int| 0 <= x < m0len implies #[trigger] t[i + x] == m0[x] by {
        assert(ms[x] == m0[x]);
        assert(t[i + x] == ms[x]);
    }
    // the member's fixed punctuation, at its known offsets
    assert(shape[0] == '"');
    assert(t[i + 0] == m0[0]);
    assert(t[i] == '"');
    assert(shape[1 + ekl] == '"');
    assert(t[i + (1 + ekl)] == m0[1 + ekl]);
    assert(t[i + 1 + ekl] == '"');
    assert(shape[2 + ekl] == ':');
    assert(t[i + (2 + ekl)] == m0[2 + ekl]);
    assert(t[i + 2 + ekl] == ':');
    assert(shape[3 + ekl] == '"');
    assert(t[i + (3 + ekl)] == m0[3 + ekl]);
    assert(t[i + 3 + ekl] == '"');
    assert(shape[4 + ekl + evl] == '"');
    assert(t[i + (4 + ekl + evl)] == m0[4 + ekl + evl]);
    assert(t[i + 4 + ekl + evl] == '"');
    // the parser starts at the key's opening quote
    assert(spec_skip_ws(t, i) == i);
    // the key decodes
    assert(t.subrange(i + 1, i + 1 + ekl) =~= ek) by {
        assert forall|y: int| 0 <= y < ekl implies t[i + 1 + y] == ek[y] by {
            assert(shape[1 + y] == ek[y]);
            assert(t[i + (1 + y)] == m0[1 + y]);
        }
    }
    lemma_parse_escaped(t, i + 1, k);
    let j1 = i + 1 + ekl + 1;
    assert(spec_string_body(t, i + 1) == Some((k, j1)));
    assert(spec_skip_ws(t, j1) == j1);
    assert(t[j1] == ':');
    // the value decodes
    let k2 = j1 + 1;
    assert(spec_skip_ws(t, k2) == k2);
    assert(t[k2] == '"');
    assert(t.subrange(i + 4 + ekl, i + 4 + ekl + evl) =~= ev) by {
        assert forall|y: int| 0 <= y < evl implies t[i + 4 + ekl + y] == ev[y] by {
            assert(shape[4 + ekl + y] == ev[y]);
            assert(t[i + (4 + ekl + y)] == m0[4 + ekl + y]);
        }
    }
    lemma_parse_escaped(t, i + 4 + ekl, v);
    let j2 = i + m0len;
    assert(spec_string_body(t, k2 + 1) == Some((v, j2)));
    if ps.len() == 1 {
        assert(ms == m0);
        assert(j2 == t.len() - 1);
        assert(t[j2] == '}');
        assert(spec_skip_ws(t, j2) == j2);
        assert(seq![(k, v)] =~= ps);
        assert(spec_members_from(t, i) == Some((ps, t.len() as int)));
    } else {
        let rest = spec_members(ps.skip(1));
        assert(ms[m0len] == ',');
        assert(t[i + m0len] == ms[m0len]);
        assert(t[j2] == ',');
        assert(spec_skip_ws(t, j2) == j2);
        let i2 = j2 + 1;
        assert(t.subrange(i2, i2 + rest.len() as int) =~= rest) by {
            assert forall|y: int| 0 <= y < rest.len() implies t[i2 + y] == rest[y] by {
                assert(ms[m0len + 1 + y] == rest[y]);
                assert(t[i + (m0len + 1 + y)] == ms[m0len + 1 + y]);
            }
        }
        lemma_parse_members_of(t, i2, ps.skip(1));
        assert(seq![(k, v)] + ps.skip(1) =~= ps);
        assert(spec_members_from(t, i) == Some((ps, t.len() as int)));
    }
}

/// Reading back what was written: the text of a whole object parses
/// to exactly the members it encodes, whatever the keys and values
/// hold.  In particular the ledger file written at shutdown restores
/// the same ledger at the next start.
pub proof fn lemma_object_round_trip(ps: Seq<(Seq<char>, Seq<char>)>)
    ensures
        spec_parse_object(spec_object(ps)) == Some(ps),
{
    let t = spec_object(ps);
    let ms = spec_members(ps);
    assert(t[0] == '{');
    assert(t.len() == ms.len() + 2);
    assert(t[t.len() - 1] == '}');
    assert(spec_skip_ws(t, 0) == 0);
    if ps.len() == 0 {
        assert(ms.len() == 0);
        assert(t[1] == '}');
        assert(spec_skip_ws(t, 1) == 1);
        assert(spec_skip_ws(t, 2) == 2);
        assert(Seq::<(Seq<char>, Seq<char>)>::empty() =~= ps);
    } else {
        let m0 = spec_member(ps[0].0, ps[0].1);
        assert(m0 =~= seq!['"'] + spec_escape(ps[0].0) + seq!['"', ':', '"'] + spec_escape(
            ps[0].1,
        ) + seq!['"']);
        assert(ms[0] == m0[0]);
        assert(t[1] == '"');
        assert(spec_skip_ws(t, 1) == 1);
        assert(t.subrange(1, 1 + ms.len() as int) =~= ms) by {
            assert forall|y: int| 0 <= y < ms.len() implies t[1 + y] == ms[y] by {}
        }
        lemma_parse_members_of(t, 1, ps);
        assert(spec_skip_ws(t, t.len() as int) == t.len());
    }
}

fn is_ws_exec(c: char) -> (r: bool)
    ensures
        r == is_ws(c),
{
    c == ' ' || c == '\t' || c == '\n' || c == '\r'
}

fn is_hex_exec(c: char) -> (r: bool)
    ensures
        r == is_hex(c),
{
    let cu: u32 = c as u32;
    (('0' as u32) <= cu && cu <= ('9' as u32)) || (('a' as u32) <= cu && cu <= ('f' as u32)) || ((
    'A' as u32) <= cu && cu <= ('F' as u32))
}

fn hex_val_exec(c: char) -> (r: u32)
    requires
        is_hex(c),
    ensures
        r as int == hex_val(c),
        r < 16,
{
    let cu: u32 = c as u32;
    if ('0' as u32) <= cu && cu <= ('9' as u32) {
        cu - ('0' as u32)
    } else if ('a' as u32) <= cu && cu <= ('f' as u32) {
        10 + cu - ('a' as u32)
    } else {
        10 + cu - ('A' as u32)
    }
}

fn escape_code_exec(e: char) -> (r: Option<char>)
    ensures
        r == spec_escape_code(e),
{
    if e == '"' {
        Some('"')
    } else if e == '\\' {
        Some('\\')
    } else if e == '/' {
        Some('/')
    } else if e == 'b' {
        Some('\u{0008}')
    } else if e == 'f' {
        Some('\u{000C}')
    } else if e == 'n' {
        Some('\n')
    } else if e == 'r' {
        Some('\r')
    } else if e == 't' {
        Some('\t')
    } else {
        None
    }
}

fn skip_ws_exec(s: &str, i: usize, n: usize) -> (r: usize)
    requires
        n == s@.len(),
        i <= n,
    ensures
        i <= r <= n,
        r as int == spec_skip_ws(s@, i as int),
{
    let mut r: usize = i;
    loop
        invariant
            i <= r <= n,
            n == s@.len(),
            spec_skip_ws(s@, r as int) == spec_skip_ws(s@, i as int),
        ensures
            i <= r <= n,
            r as int == spec_skip_ws(s@, i as int),
        decreases n - r,
    {
        if r == n {
            break ;
        }
        let c = s.get_char(r);
        if !is_ws_exec(c) {
            break ;
        }
        r = r + 1;
    }
    r
}

/// What remains to be read of a string body: the text decodes from
/// `i` exactly when it decodes from `k` with `acc` already read.
spec fn body_continues(s: Seq<char>, i: int, acc: Seq<char>, k: int) -> bool {
    match spec_string_body(s, k) {
        None => spec_string_body(s, i) is None,
        Some((rest, j)) => spec_string_body(s, i) matches Some((full, j2)) && full == acc + rest
            && j2 == j,
    }
}

fn parse_string_body(s: &str, i: usize, n: usize) -> (r: Option<(String, usize)>)
    requires
        n == s@.len(),
        i <= n,
    ensures
        match spec_string_body(s@, i as int) {
            None => r is None,
            Some((cs, j)) => r matches Some(p) && p.0@ == cs && p.1 as int == j,
        },
{
    let mut acc = String::new();
    let mut k: usize = i;
    proof {
        assert(acc@ =~= Seq::<char>::empty());
    }
    loop
        invariant
            i <= k <= n,
            n == s@.len(),
            body_continues(s@, i as int, acc@, k as int),
        decreases n - k,
    {
        let ghost pre = acc@;
        if k == n {
            return None;
        }
        let c = s.get_char(k);
        if c == '"' {
            proof {
                assert(pre + Seq::<char>::empty() =~= pre);
            }
            return Some((acc, k + 1));
        }
        if c == '\\' {
            if n - k < 2 {
                return None;
            }
            let e = s.get_char(k + 1);
            if e == 'u' {
                if n - k < 6 {
                    return None;
                }
                let h1 = s.get_char(k + 2);
                let h2 = s.get_char(k + 3);
                let h3 = s.get_char(k + 4);
                let h4 = s.get_char(k + 5);
                if !(is_hex_exec(h1) && is_hex_exec(h2) && is_hex_exec(h3) && is_hex_exec(h4)) {
                    return None;
                }
                let code: u32 = hex_val_exec(h1) * 4096 + hex_val_exec(h2) * 256 + hex_val_exec(h3)
                    * 16 + hex_val_exec(h4);
                if 0xD800 <= code && code < 0xE000 {
                    return None;
                }
                match char_from_u32(code) {
                    Some(ch) => {
                        push_char(&mut acc, ch);
                        proof {
                            let ghost code_i: int = hex_val(s@[k as int + 2]) * 4096 + hex_val(
                                s@[k as int + 3],
                            ) * 256 + hex_val(s@[k as int + 4]) * 16 + hex_val(s@[k as int + 5]);
                            let ghost sc = (code_i as char);
                            assert(code as int == code_i);
                            assert(0 <= code_i < 0xD800 || 0xE000 <= code_i <= 0xFFFF);
                            assert(sc as int == code_i);
                            assert(ch as int == code_i);
                            assert(ch == sc);
                            match spec_string_body(s@, k as int + 6) {
                                Some((rest, j)) => {
                                    assert(pre + (seq![sc] + rest) =~= pre.push(ch) + rest);
                                },
                                None => {},
                            }
                        }
                        k = k + 6;
                    },
                    None => {
                        proof {
                            assert(false);
                        }
                        return None;
                    },
                }
            } else {
                match escape_code_exec(e) {
                    None => {
                        return None;
                    },
                    Some(c2) => {
                        push_char(&mut acc, c2);
                        proof {
                            match spec_string_body(s@, k as int + 2) {
                                Some((rest, j)) => {
                                    assert(pre + (seq![c2] + rest) =~= pre.push(c2) + rest);
                                },
                                None => {},
                            }
                        }
                        k = k + 2;
                    },
                }
            }
        } else if (c as u32) < 32 {
            return None;
        } else {
            push_char(&mut acc, c);
            proof {
                match spec_string_body(s@, k as int + 1) {
                    Some((rest, j)) => {
                        assert(pre + (seq![c] + rest) =~= pre.push(c) + rest);
                    },
                    None => {},
                }
            }
            k = k + 1;
        }
    }
}

/// What remains to be read of the member list: the text reads from
/// `i` exactly when it reads from `k` with `acc` already gathered.
spec fn members_continue(
    s: Seq<char>,
    i: int,
    acc: Seq<(Seq<char>, Seq<char>)>,
    k: int,
) -> bool {
    match spec_members_from(s, k) {
        None => spec_members_from(s, i) is None,
        Some((rest, j)) => spec_members_from(s, i) matches Some((full, j2)) && full == acc + rest
            && j2 == j,
    }
}

fn parse_members(s: &str, i: usize, n: usize) -> (r: Option<(Vec<(String, String)>, usize)>)
    requires
        n == s@.len(),
        i <= n,
    ensures
        match spec_members_from(s@, i as int) {
            None => r is None,
            Some((ps, j)) => r matches Some(p) && pairs_view(p.0@) == ps && p.1 as int == j,
        },
{
    let mut acc: Vec<(String, String)> = Vec::new();
    let mut k: usize = i;
    proof {
        assert(pairs_view(acc@) =~= Seq::<(Seq<char>, Seq<char>)>::empty());
    }
    loop
        invariant
            i <= k <= n,
            n == s@.len(),
            members_continue(s@, i as int, pairs_view(acc@), k as int),
        decreases n - k,
    {
        let ghost pre = pairs_view(acc@);
        let k0 = skip_ws_exec(s, k, n);
        if k0 == n {
            return None;
        }
        if s.get_char(k0) != '"' {
            return None;
        }
        proof {
            lemma_string_body_advances(s@, k0 as int + 1);
        }
        let (key, j1) = match parse_string_body(s, k0 + 1, n) {
            None => {
                return None;
            },
            Some(p) => p,
        };
        let k1 = skip_ws_exec(s, j1, n);
        if k1 == n {
            return None;
        }
        if s.get_char(k1) != ':' {
            return None;
        }
        let k2 = skip_ws_exec(s, k1 + 1, n);
        if k2 == n {
            return None;
        }
        if s.get_char(k2) != '"' {
            return None;
        }
        proof {
            lemma_string_body_advances(s@, k2 as int + 1);
        }
        let (val, j2) = match parse_string_body(s, k2 + 1, n) {
            None => {
                return None;
            },
            Some(p) => p,
        };
        let k3 = skip_ws_exec(s, j2, n);
        if k3 == n {
            return None;
        }
        let d = s.get_char(k3);
        let ghost kv = (key@, val@);
        if d == ',' {
            acc.push((key, val));
            proof {
                assert(pairs_view(acc@) =~= pre.push(kv));
                match spec_members_from(s@, k3 as int + 1) {
                    Some((rest, j4)) => {
                        assert(pre + (seq![kv] + rest) =~= pre.push(kv) + rest);
                    },
                    None => {},
                }
            }
            k = k3 + 1;
        } else if d == '}' {
            acc.push((key, val));
            proof {
                assert(pairs_view(acc@) =~= pre.push(kv));
                assert(pre + seq![kv] =~= pre.push(kv));
            }
            return Some((acc, k3 + 1));
        } else {
            return None;
        }
    }
}

/// Reads a whole text as a JSON object of string fields: the members
/// in writing order.  Any other text gives `None`.
pub fn parse_object(s: &str) -> (r: Option<Vec<(String, String)>>)
    ensures
        match spec_parse_object(s@) {
            None => r is None,
            Some(ps) => r matches Some(v) && pairs_view(v@) == ps,
        },
{
    let n = s.unicode_len();
    let k0 = skip_ws_exec(s, 0, n);
    if k0 == n {
        return None;
    }
    if s.get_char(k0) != '{' {
        return None;
    }
    let k1 = skip_ws_exec(s, k0 + 1, n);
    if k1 < n && s.get_char(k1) == '}' {
        if skip_ws_exec(s, k1 + 1, n) == n {
            let empty: Vec<(String, String)> = Vec::new();
            proof {
                assert(pairs_view(empty@) =~= Seq::<(Seq<char>, Seq<char>)>::empty());
            }
            return Some(empty);
        } else {
            return None;
        }
    }
    proof {
        lemma_members_from_bounds(s@, k0 as int + 1);
    }
    match parse_members(s, k0 + 1, n) {
        None => None,
        Some((v, j)) => {
            if skip_ws_exec(s, j, n) == n {
                Some(v)
            } else {
                None
            }
        },
    }
}

/// Finds the value of the last member with the given key.
pub(crate) fn lookup_value(v: &Vec<(String, String)>, key: &String) -> (r: Option<String>)
    ensures
        match spec_lookup(pairs_view(v@), key@) {
            None => r is None,
            Some(val) => r matches Some(x) && x@ == val,
        },
{
    let ghost ps = pairs_view(v@);
    let mut idx: usize = v.len();
    proof {
        assert(ps.take(idx as int) =~= ps);
    }
    loop
        invariant
            idx <= v@.len(),
            ps == pairs_view(v@),
            spec_lookup(ps, key@) == spec_lookup(ps.take(idx as int), key@),
        ensures
            idx == 0,
            spec_lookup(ps, key@) is None,
        decreases idx,
    {
        if idx == 0 {
            break ;
        }
        let p = &v[idx - 1];
        let ghost t = ps.take(idx as int);
        proof {
            assert(t.last() == ps[idx - 1]);
        }
        if p.0 == *key {
            return Some(p.1.clone());
        }
        proof {
            assert(t.drop_last() =~= ps.take(idx as int - 1));
        }
        idx = idx - 1;
    }
    None
}

/// Decodes one inbound frame: the comic it names and, when present,
/// the reported page.  A malformed frame, or one without a string
/// `comic` field, decodes to nothing and is dropped by the caller.
pub fn parse_inbound(s: &str) -> (r: Option<(String, Option<String>)>)
    ensures
        match spec_parse_inbound(s@) {
            None => r is None,
            Some((comic, page)) => r matches Some(p) && p.0@ == comic && (match page {
                None => p.1 is None,
                Some(pg) => p.1 matches Some(x) && x@ == pg,
            }),
        },
{
    let v = match parse_object(s) {
        None => {
            return None;
        },
        Some(v) => v,
    };
    let ck = String::from_str("comic");
    proof {
        reveal_strlit("comic");
        assert(ck@ =~= comic_key());
    }
    let comic = match lookup_value(&v, &ck) {
        None => {
            return None;
        },
        Some(c) => c,
    };
    let pk = String::from_str("page");
    proof {
        reveal_strlit("page");
        assert(pk@ =~= page_key());
    }
    let page = lookup_value(&v, &pk);
    Some((comic, page))
}

} // verus!
