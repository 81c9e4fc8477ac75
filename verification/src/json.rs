//! JSON texts: string literals, and the list of streams.

use vstd::arithmetic::power::{lemma_pow0, pow};
use vstd::prelude::*;
use vstd::relations::{sorted_by, total_ordering};
use vstd::seq_lib::lemma_sorted_unique;
use vstd::string::*;

use crate::spelling::{law_hex_reads_back, only_small_digits, spelled};
use crate::text::{digit, hex, push_hex};

verus! {

// --- string literals -----------------------------------------------------

/// How a string literal writes `c`.
pub open spec fn escape(c: char) -> Seq<char> {
    if c == '"' {
        "\\\""@
    } else if c == '\\' {
        "\\\\"@
    } else if c == '\n' {
        "\\n"@
    } else if c == '\r' {
        "\\r"@
    } else if c == '\t' {
        "\\t"@
    } else if (c as u32) < 0x20 {
        "\\u"@ + hex(c as nat, 4)
    } else {
        seq![c]
    }
}

/// How a string literal writes `s`, without the quotes around it.
pub open spec fn escaped(s: Seq<char>) -> Seq<char>
    decreases s.len(),
{
    if s.len() == 0 {
        Seq::empty()
    } else {
        escaped(s.drop_last()) + escape(s.last())
    }
}

/// The string literal of `s`.
pub open spec fn json_string(s: Seq<char>) -> Seq<char> {
    "\""@ + escaped(s) + "\""@
}

fn push_escape(out: &mut String, c: char)
    ensures
        final(out)@ == old(out)@ + escape(c),
{
    if c == '"' {
        out.append("\\\"");
    } else if c == '\\' {
        out.append("\\\\");
    } else if c == '\n' {
        out.append("\\n");
    } else if c == '\r' {
        out.append("\\r");
    } else if c == '\t' {
        out.append("\\t");
    } else if (c as u32) < 0x20 {
        out.append("\\u");
        push_hex(out, c as u32, 4);
        assert(out@ =~= old(out)@ + escape(c));
    } else {
        out.push(c);
        assert(out@ =~= old(out)@ + escape(c));
    }
}

/// Appends `value` as a JSON string literal.
pub fn push_json_string(out: &mut String, value: &str)
    ensures
        final(out)@ == old(out)@ + json_string(value@),
{
    let ghost first = out@;
    let mut body: String = String::new();
    assert(body@ =~= escaped(value@.take(0)));
    for c in it: value.chars()
        invariant
            it.seq() == value@,
            body@ == escaped(value@.take(it.index() as int)),
    {
        proof {
            let i = it.index() as int;
            assert(value@.take(i + 1).drop_last() =~= value@.take(i));
        }
        push_escape(&mut body, c);
    }
    assert(value@.take(value@.len() as int) =~= value@);
    out.append("\"");
    out.append(body.as_str());
    out.append("\"");
    assert(out@ =~= first + json_string(value@));
}

/// The value of a hexadecimal digit.
pub open spec fn hex_value(c: char) -> Option<nat> {
    if '0' <= c && c <= '9' {
        Some((c as int - '0' as int) as nat)
    } else if 'a' <= c && c <= 'f' {
        Some((c as int - 'a' as int + 10) as nat)
    } else if 'A' <= c && c <= 'F' {
        Some((c as int - 'A' as int + 10) as nat)
    } else {
        None
    }
}

/// What a reader makes of an escape sequence, past its backslash: the character, and
/// how many characters the sequence takes. Of the numeric escapes it reads those of
/// ASCII characters.
pub open spec fn unescape(t: Seq<char>) -> Option<(char, int)> {
    if t.len() == 0 {
        None
    } else if t[0] == '"' || t[0] == '\\' || t[0] == '/' {
        Some((t[0], 1))
    } else if t[0] == 'n' {
        Some(('\n', 1))
    } else if t[0] == 'r' {
        Some(('\r', 1))
    } else if t[0] == 't' {
        Some(('\t', 1))
    } else if t[0] == 'b' {
        Some(('\u{8}', 1))
    } else if t[0] == 'f' {
        Some(('\u{c}', 1))
    } else if t[0] == 'u' && t.len() >= 5 && t[1] == '0' && t[2] == '0' {
        match (hex_value(t[3]), hex_value(t[4])) {
            (Some(a), Some(b)) => if a < 8 {
                Some(((16 * a + b) as char, 5))
            } else {
                None
            },
            _ => None,
        }
    } else {
        None
    }
}

/// What a reader makes of the inside of a string literal. A bare quote or control
/// character is an error.
pub open spec fn decoded(t: Seq<char>) -> Option<Seq<char>>
    decreases t.len(),
{
    if t.len() == 0 {
        Some(Seq::empty())
    } else if t[0] == '\\' {
        match unescape(t.skip(1)) {
            None => None,
            Some((c, n)) => if n < 1 {
                None
            } else {
                match decoded(t.skip(1 + n)) {
                    None => None,
                    Some(rest) => Some(seq![c] + rest),
                }
            },
        }
    } else if t[0] == '"' || (t[0] as u32) < 0x20 {
        None
    } else {
        match decoded(t.skip(1)) {
            None => None,
            Some(rest) => Some(seq![t[0]] + rest),
        }
    }
}

proof fn lemma_escape_decodes(c: char, rest: Seq<char>)
    ensures
        decoded(escape(c) + rest) == (match decoded(rest) {
            None => None,
            Some(s) => Some(seq![c] + s),
        }),
{
    reveal_strlit("\\\"");
    reveal_strlit("\\\\");
    reveal_strlit("\\n");
    reveal_strlit("\\r");
    reveal_strlit("\\t");
    reveal_strlit("\\u");
    let t = escape(c) + rest;
    if c == '"' || c == '\\' || c == '\n' || c == '\r' || c == '\t' {
        assert(t.skip(2) =~= rest);
    } else if (c as u32) < 0x20 {
        reveal_with_fuel(hex, 5);
        let h = hex(c as nat, 4);
        assert(h =~= seq!['0', '0', digit(c as int / 16), digit(c as int % 16)]);
        assert(t.skip(1) =~= seq!['u'] + h + rest);
        assert(t.skip(6) =~= rest);
    } else {
        assert(t.skip(1) =~= rest);
    }
}

proof fn lemma_escaped_cons(s: Seq<char>)
    requires
        s.len() > 0,
    ensures
        escaped(s) == escape(s[0]) + escaped(s.skip(1)),
    decreases s.len(),
{
    let rest = s.skip(1);
    if s.len() == 1 {
        assert(s.drop_last() =~= Seq::empty());
        assert(rest =~= Seq::empty());
        assert(escaped(s) =~= escape(s[0]) + escaped(rest));
    } else {
        lemma_escaped_cons(s.drop_last());
        assert(s.drop_last().skip(1) =~= rest.drop_last());
        assert(escaped(s) =~= escape(s[0]) + escaped(rest));
    }
}

/// A reader gets back from a string literal what went into it.
pub proof fn law_json_strings_read_back(s: Seq<char>)
    ensures
        decoded(escaped(s)) == Some(s),
    decreases s.len(),
{
    if s.len() > 0 {
        let rest = s.skip(1);
        lemma_escaped_cons(s);
        law_json_strings_read_back(rest);
        lemma_escape_decodes(s[0], escaped(rest));
        assert(seq![s[0]] + rest =~= s);
    }
}

/// A string literal holds no bare control character.
pub proof fn law_json_strings_hold_no_control_character(s: Seq<char>)
    ensures
        forall|i: int|
            0 <= i < json_string(s).len() ==> (#[trigger] json_string(s)[i]) as u32 >= 0x20,
{
    reveal_strlit("\"");
    lemma_no_control(s);
}

proof fn lemma_no_control(s: Seq<char>)
    ensures
        forall|i: int| 0 <= i < escaped(s).len() ==> (#[trigger] escaped(s)[i]) as u32 >= 0x20,
    decreases s.len(),
{
    if s.len() > 0 {
        lemma_no_control(s.drop_last());
        let c = s.last();
        reveal_strlit("\\\"");
        reveal_strlit("\\\\");
        reveal_strlit("\\n");
        reveal_strlit("\\r");
        reveal_strlit("\\t");
        reveal_strlit("\\u");
        if (c as u32) < 0x20 {
            reveal_with_fuel(hex, 5);
        }
        assert forall|i: int| 0 <= i < escape(c).len() implies (#[trigger] escape(c)[i]) as u32
            >= 0x20 by {}
        let before = escaped(s.drop_last());
        assert forall|i: int| 0 <= i < escaped(s).len() implies (#[trigger] escaped(s)[i]) as u32
            >= 0x20 by {
            if i < before.len() {
                assert(escaped(s)[i] == before[i]);
            } else {
                assert(escaped(s)[i] == escape(c)[i - before.len()]);
            }
        }
    }
}

// --- the list of streams -------------------------------------------------

/// Whether `a` comes before `b`, or is `b`, in the order of strings: by the first
/// character in which they differ, and a string before what it starts.
pub open spec fn text_le(a: Seq<char>, b: Seq<char>) -> bool
    decreases a.len(),
{
    if a.len() == 0 {
        true
    } else if b.len() == 0 {
        false
    } else if a[0] != b[0] {
        a[0] < b[0]
    } else {
        text_le(a.skip(1), b.skip(1))
    }
}

/// What the elements of `names` hold.
pub open spec fn texts(names: Seq<String>) -> Seq<Seq<char>> {
    names.map_values(|s: String| s@)
}

/// Whether `sorted` is `names` in the order of strings.
pub open spec fn is_sorting(names: Seq<Seq<char>>, sorted: Seq<Seq<char>>) -> bool {
    &&& sorted.to_multiset() == names.to_multiset()
    &&& sorted_by(sorted, |a: Seq<char>, b: Seq<char>| text_le(a, b))
}

/// Calls `sort` of the standard library on strings: the same strings stay, in the order
/// of their characters' code points.
#[verifier::external_body]
fn sort(names: &mut Vec<String>)
    ensures
        is_sorting(texts(old(names)@), texts(final(names)@)),
{
    names.sort();
}

/// The entry of stream `name`.
pub open spec fn listing_entry(name: Seq<char>) -> Seq<char> {
    "{\"name\":"@ + json_string(name) + ",\"master\":"@ + json_string(
        "/api/stream/"@ + name + "/master.m3u8"@,
    ) + "}"@
}

/// The entries of all streams, with a comma between each two.
pub open spec fn listing_entries(names: Seq<Seq<char>>) -> Seq<char>
    decreases names.len(),
{
    if names.len() == 0 {
        Seq::empty()
    } else if names.len() == 1 {
        listing_entry(names[0])
    } else {
        listing_entries(names.drop_last()) + ","@ + listing_entry(names.last())
    }
}

/// The document that lists `names` in the order given.
pub open spec fn listing_text(names: Seq<Seq<char>>) -> Seq<char> {
    "{\"streams\":["@ + listing_entries(names) + "]}"@
}

fn push_entry(out: &mut String, name: &str)
    ensures
        final(out)@ == old(out)@ + listing_entry(name@),
{
    let mut master: String = "/api/stream/".to_owned();
    master.append(name);
    master.append("/master.m3u8");
    let mut entry: String = "{\"name\":".to_owned();
    push_json_string(&mut entry, name);
    entry.append(",\"master\":");
    push_json_string(&mut entry, master.as_str());
    entry.append("}");
    out.append(entry.as_str());
}

/// Writes the document that lists `names` in the order given.
pub fn listing(names: &[String]) -> (r: String)
    ensures
        r@ == listing_text(texts(names@)),
{
    let ghost all = texts(names@);
    let mut entries: String = String::new();
    let mut i: usize = 0;
    assert(entries@ =~= listing_entries(all.take(0)));
    while i < names.len()
        invariant
            i <= names@.len() == all.len(),
            all == texts(names@),
            entries@ == listing_entries(all.take(i as int)),
        decreases names@.len() - i,
    {
        if i > 0 {
            entries.append(",");
        }
        push_entry(&mut entries, names[i].as_str());
        proof {
            let now = all.take(i + 1);
            assert(now.drop_last() =~= all.take(i as int));
            assert(now.last() == names@[i as int]@);
            assert(entries@ =~= listing_entries(now));
        }
        i = i + 1;
    }
    assert(all.take(i as int) =~= all);
    let mut out: String = "{\"streams\":[".to_owned();
    out.append(entries.as_str());
    out.append("]}");
    out
}

/// Writes the document that lists every stream, in the order of their names.
pub fn list(names: Vec<String>) -> (r: String)
    ensures
        exists|sorted: Seq<Seq<char>>| #[trigger]
            is_sorting(texts(names@), sorted) && r@ == listing_text(sorted),
{
    let mut names = names;
    sort(&mut names);
    listing(names.as_slice())
}

proof fn lemma_text_order(a: Seq<char>, b: Seq<char>, c: Seq<char>)
    ensures
        text_le(a, a),
        text_le(a, b) || text_le(b, a),
        text_le(a, b) && text_le(b, a) ==> a == b,
        text_le(a, b) && text_le(b, c) ==> text_le(a, c),
    decreases a.len() + b.len() + c.len(),
{
    if a.len() == 0 && b.len() == 0 {
        assert(a =~= b);
    }
    if a.len() > 0 {
        lemma_text_order(
            a.skip(1),
            if b.len() > 0 {
                b.skip(1)
            } else {
                b
            },
            if c.len() > 0 {
                c.skip(1)
            } else {
                c
            },
        );
        if b.len() > 0 && a[0] == b[0] && a.skip(1) == b.skip(1) {
            assert(a =~= seq![a[0]] + a.skip(1));
            assert(b =~= seq![b[0]] + b.skip(1));
        }
    }
}

/// The same streams always give the same list: names can be put in order in one way
/// only.
pub proof fn law_listing_is_determined(
    names: Seq<Seq<char>>,
    a: Seq<Seq<char>>,
    b: Seq<Seq<char>>,
)
    requires
        is_sorting(names, a),
        is_sorting(names, b),
    ensures
        listing_text(a) == listing_text(b),
{
    let le = |x: Seq<char>, y: Seq<char>| text_le(x, y);
    assert forall|x: Seq<char>| #[trigger] le(x, x) by {
        lemma_text_order(x, x, x);
    }
    assert forall|x: Seq<char>, y: Seq<char>| #[trigger] le(x, y) && #[trigger] le(y, x) implies x
        == y by {
        lemma_text_order(x, y, y);
    }
    assert forall|x: Seq<char>, y: Seq<char>, z: Seq<char>| #[trigger]
        le(x, y) && #[trigger] le(y, z) implies le(x, z) by {
        lemma_text_order(x, y, z);
    }
    assert forall|x: Seq<char>, y: Seq<char>| #[trigger] le(x, y) || #[trigger] le(y, x) by {
        lemma_text_order(x, y, y);
    }
    assert(total_ordering(le));
    lemma_sorted_unique(a, b, le);
}

/// Strings are ordered by the first character in which they differ, and a string comes
/// before what it starts.
pub proof fn law_first_difference_decides(a: Seq<char>, b: Seq<char>, k: int)
    requires
        0 <= k <= a.len(),
        k <= b.len(),
        forall|i: int| 0 <= i < k ==> a[i] == b[i],
    ensures
        k == a.len() ==> text_le(a, b),
        k < a.len() && k == b.len() ==> !text_le(a, b),
        k < a.len() && k < b.len() && a[k] != b[k] ==> (text_le(a, b) <==> a[k] < b[k]),
    decreases k,
{
    if k > 0 {
        assert(a[0] == b[0]);
        assert forall|i: int| 0 <= i < k - 1 implies a.skip(1)[i] == b.skip(1)[i] by {
            assert(a[i + 1] == b[i + 1]);
        }
        law_first_difference_decides(a.skip(1), b.skip(1), k - 1);
    }
}

/// Only quotes, backslashes and control characters are escaped.
pub proof fn law_plain_characters_stand_for_themselves(s: Seq<char>)
    requires
        forall|i: int|
            0 <= i < s.len() ==> #[trigger] s[i] != '"' && s[i] != '\\' && s[i] as u32 >= 0x20,
    ensures
        escaped(s) == s,
    decreases s.len(),
{
    if s.len() > 0 {
        let rest = s.drop_last();
        assert forall|i: int| 0 <= i < rest.len() implies #[trigger] rest[i] != '"' && rest[i]
            != '\\' && rest[i] as u32 >= 0x20 by {
            assert(rest[i] == s[i]);
        }
        law_plain_characters_stand_for_themselves(rest);
        assert(s[s.len() - 1] != '"');
        assert(escaped(s) =~= s);
    }
}

/// The list holds one entry for each name, in order, with commas between them. A reader of
/// an entry gets the name, and the path of the multivariant playlist of the stream.
pub proof fn law_listing_reads_back(
    a: Seq<Seq<char>>,
    b: Seq<Seq<char>>,
    name: Seq<char>,
) -> (r: (Seq<char>, Seq<char>))
    ensures
        listing_text(a) == "{\"streams\":["@ + listing_entries(a) + "]}"@,
        listing_entries(Seq::empty()) == Seq::<char>::empty(),
        a.len() > 0 && b.len() > 0 ==> listing_entries(a + b) == listing_entries(a) + seq![',']
            + listing_entries(b),
        listing_entries(seq![name]) == "{\"name\":\""@ + r.0 + "\",\"master\":\""@ + r.1
            + "\"}"@,
        decoded(r.0) == Some(name),
        decoded(r.1) == Some("/api/stream/"@ + name + "/master.m3u8"@),
{
    let master = "/api/stream/"@ + name + "/master.m3u8"@;
    law_json_strings_read_back(name);
    law_json_strings_read_back(master);
    if a.len() > 0 && b.len() > 0 {
        lemma_entries_append(a, b);
    }
    assert("{\"name\":\""@ =~= "{\"name\":"@ + "\""@) by {
        reveal_strlit("{\"name\":\"");
        reveal_strlit("{\"name\":");
        reveal_strlit("\"");
    }
    assert("\",\"master\":\""@ =~= "\""@ + ",\"master\":"@ + "\""@) by {
        reveal_strlit("\",\"master\":\"");
        reveal_strlit(",\"master\":");
        reveal_strlit("\"");
    }
    assert("\"}"@ =~= "\""@ + "}"@) by {
        reveal_strlit("\"}");
        reveal_strlit("}");
        reveal_strlit("\"");
    }
    lemma_eight(
        "{\"name\":"@,
        "\""@,
        escaped(name),
        ",\"master\":"@,
        escaped(master),
        "}"@,
    );
    (escaped(name), escaped(master))
}

proof fn lemma_eight(
    a: Seq<char>,
    q: Seq<char>,
    x: Seq<char>,
    b: Seq<char>,
    y: Seq<char>,
    c: Seq<char>,
)
    ensures
        a + (q + x + q) + b + (q + y + q) + c == (a + q) + x + (q + b + q) + y + (q + c),
{
    assert(a + (q + x + q) + b + (q + y + q) + c =~= (a + q) + x + (q + b + q) + y + (q + c));
}

proof fn lemma_entries_append(a: Seq<Seq<char>>, b: Seq<Seq<char>>)
    requires
        a.len() > 0,
        b.len() > 0,
    ensures
        listing_entries(a + b) == listing_entries(a) + seq![','] + listing_entries(b),
    decreases b.len(),
{
    reveal_strlit(",");
    assert(","@ =~= seq![',']);
    assert((a + b).drop_last() =~= a + b.drop_last());
    if b.len() == 1 {
        assert(a + b.drop_last() =~= a);
    } else {
        lemma_entries_append(a, b.drop_last());
        assert(listing_entries(a + b) =~= listing_entries(a) + seq![','] + listing_entries(b));
    }
}

/// A control character is escaped by a letter, or else by `u` and the four small hexadecimal
/// digits of its code; a quote and a backslash by themselves.
pub proof fn law_escapes_spell_the_character(c: char)
    ensures
        c == '"' || c == '\\' ==> escape(c) == seq!['\\', c],
        c == '\n' ==> escape(c) == seq!['\\', 'n'],
        c == '\r' ==> escape(c) == seq!['\\', 'r'],
        c == '\t' ==> escape(c) == seq!['\\', 't'],
        (c as u32) < 0x20 && c != '\n' && c != '\r' && c != '\t' ==> {
            let text = escape(c);
            &&& text.len() == 6
            &&& text[0] == '\\' && text[1] == 'u'
            &&& only_small_digits(text.skip(2))
            &&& spelled(text.skip(2), 16) == c as u32
        },
{
    reveal_strlit("\\\"");
    reveal_strlit("\\\\");
    reveal_strlit("\\n");
    reveal_strlit("\\r");
    reveal_strlit("\\t");
    reveal_strlit("\\u");
    assert(c == '"' || c == '\\' ==> escape(c) =~= seq!['\\', c]);
    assert(c == '\n' ==> escape(c) =~= seq!['\\', 'n']);
    assert(c == '\r' ==> escape(c) =~= seq!['\\', 'r']);
    assert(c == '\t' ==> escape(c) =~= seq!['\\', 't']);
    if (c as u32) < 0x20 && c != '\n' && c != '\r' && c != '\t' {
        assert(0x20 <= pow(16, 4)) by {
            lemma_pow0(16);
            reveal(pow);
            assert(pow(16, 1) == 16);
            assert(pow(16, 2) == 256);
            assert(pow(16, 3) == 4096);
        }
        law_hex_reads_back(c as nat, 4);
        assert(escape(c).skip(2) =~= hex(c as nat, 4));
    }
}

} // verus!
