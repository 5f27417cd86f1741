use vstd::prelude::*;

use crate::siwe::{rendered, rfc3339_of, SiweMessage};
use crate::text::{decimal, digit_char};

verus! {

/// No character of `s` is a line break.
pub open spec fn line_free(s: Seq<char>) -> bool {
    forall|i: int| 0 <= i < s.len() ==> s[i] != '\n'
}

/// The lines of `s`: the pieces between line breaks, one more than there are breaks.
pub open spec fn lines(s: Seq<char>) -> Seq<Seq<char>>
    decreases s.len(),
{
    if s.len() == 0 {
        seq![Seq::empty()]
    } else if s.last() == '\n' {
        lines(s.drop_last()).push(Seq::empty())
    } else {
        let rest = lines(s.drop_last());
        rest.update(rest.len() - 1, rest.last().push(s.last()))
    }
}

/// The views of a list of strings.
pub open spec fn string_views(v: Seq<String>) -> Seq<Seq<char>> {
    Seq::new(v.len(), |i: int| v[i]@)
}

proof fn lemma_lines_nonempty(s: Seq<char>)
    ensures
        lines(s).len() >= 1,
    decreases s.len(),
{
    if s.len() > 0 {
        lemma_lines_nonempty(s.drop_last());
    }
}

/// Appending text without line breaks extends the last line.
proof fn lemma_lines_extend(a: Seq<char>, b: Seq<char>)
    requires
        line_free(b),
    ensures
        lines(a + b) == lines(a).update(lines(a).len() - 1, lines(a).last() + b),
    decreases b.len(),
{
    lemma_lines_nonempty(a);
    if b.len() == 0 {
        assert(a + b =~= a);
        assert(lines(a).last() + b =~= lines(a).last());
        assert(lines(a).update(lines(a).len() - 1, lines(a).last()) =~= lines(a));
    } else {
        let c = b.drop_last();
        lemma_lines_extend(a, c);
        assert((a + b).drop_last() =~= a + c);
        assert((a + b).last() == b.last());
        assert(b[b.len() - 1] != '\n');
        assert(lines(a).last() + c + seq![b.last()] =~= lines(a).last() + b);
        let la = lines(a);
        let lc = la.update(la.len() - 1, la.last() + c);
        assert(lc.last() == la.last() + c);
        assert((la.last() + c).push(b.last()) =~= la.last() + b);
        assert(lc.len() == la.len());
        assert(lc.update(lc.len() - 1, lc.last().push(b.last())) =~= la.update(la.len() - 1, la.last() + b));
    }
}

/// A line break followed by text without breaks starts one more line.
proof fn lemma_lines_break(a: Seq<char>, b: Seq<char>)
    requires
        line_free(b),
    ensures
        lines(a + seq!['\n'] + b) == lines(a).push(b),
{
    let a2 = a + seq!['\n'];
    assert(a2.drop_last() =~= a);
    lemma_lines_extend(a2, b);
    let l = lines(a).push(Seq::<char>::empty());
    assert(Seq::<char>::empty() + b =~= b);
    assert(l.update(l.len() - 1, l.last() + b) =~= lines(a).push(b));
}

/// Splits `s` at its line breaks.
pub fn split_lines(s: &str) -> (r: Vec<String>)
    ensures
        string_views(r@) == lines(s@),
{
    let n = s.unicode_len();
    let mut r: Vec<String> = Vec::new();
    let mut start: usize = 0;
    let mut i: usize = 0;
    assert(s@.subrange(0, 0) =~= Seq::<char>::empty());
    assert(string_views(r@).push(s@.subrange(0, 0)) =~= seq![Seq::<char>::empty()]);
    while i < n
        invariant
            n == s@.len(),
            start <= i <= n,
            lines(s@.subrange(0, i as int)) == string_views(r@).push(s@.subrange(start as int, i as int)),
        decreases n - i,
    {
        let c = s.get_char(i);
        let ghost prev = r@;
        assert(s@.subrange(0, i + 1).drop_last() =~= s@.subrange(0, i as int));
        if c == '\n' {
            r.push(s.substring_char(start, i).to_owned());
            assert(s@.subrange((i + 1) as int, (i + 1) as int) =~= Seq::<char>::empty());
            assert(string_views(r@) =~= string_views(prev).push(s@.subrange(start as int, i as int)));
            start = i + 1;
        } else {
            assert(s@.subrange(start as int, i + 1) =~= s@.subrange(start as int, i as int).push(c));
            assert(string_views(prev).push(s@.subrange(start as int, i as int)).update(string_views(prev).len() as int, s@.subrange(start as int, i + 1))
                =~= string_views(prev).push(s@.subrange(start as int, i + 1)));
        }
        i = i + 1;
    }
    let ghost prev = r@;
    r.push(s.substring_char(start, n).to_owned());
    assert(s@.subrange(0, n as int) =~= s@);
    assert(string_views(r@) =~= string_views(prev).push(s@.subrange(start as int, n as int)));
    r
}

/// Whether `c` is a decimal digit.
pub open spec fn is_digit(c: char) -> bool {
    '0' <= c && c <= '9'
}

/// Every character of `s` is a decimal digit.
pub open spec fn all_digits(s: Seq<char>) -> bool {
    forall|i: int| 0 <= i < s.len() ==> is_digit(#[trigger] s[i])
}

/// The number that the decimal digits `s` write.
pub open spec fn digits_value(s: Seq<char>) -> nat
    decreases s.len(),
{
    if s.len() == 0 {
        0
    } else {
        digits_value(s.drop_last()) * 10 + ((s.last() as u32) as int - 48) as nat
    }
}

proof fn lemma_decimal_digits(n: nat)
    ensures
        decimal(n).len() > 0,
        all_digits(decimal(n)),
        digits_value(decimal(n)) == n,
    decreases n,
{
    let d = (n % 10) as nat;
    assert((digit_char(d) as u32) as int - 48 == d && is_digit(digit_char(d)));
    if n >= 10 {
        lemma_decimal_digits(n / 10);
        let s = decimal(n);
        assert(s.drop_last() =~= decimal(n / 10));
        assert(s.last() == digit_char(d));
        assert(digits_value(s) == digits_value(decimal(n / 10)) * 10 + d);
        assert((n / 10) * 10 + n % 10 == n);
        assert(all_digits(s)) by {
            assert forall|i: int| 0 <= i < s.len() implies is_digit(#[trigger] s[i]) by {
                if i < s.len() - 1 {
                    assert(s[i] == decimal(n / 10)[i]);
                }
            };
        };
    } else {
        assert(decimal(n).drop_last() =~= Seq::<char>::empty());
        assert(digits_value(Seq::<char>::empty()) == 0);
        assert(n % 10 == n);
        assert(decimal(n).last() == digit_char(d));
        assert(digits_value(decimal(n)) == 0 * 10 + d);
        assert(all_digits(decimal(n))) by {
            assert forall|i: int| 0 <= i < decimal(n).len() implies is_digit(#[trigger] decimal(n)[i]) by {
                assert(i == 0);
            };
        };
    }
}

proof fn lemma_prefix_value_le(s: Seq<char>, i: int)
    requires
        0 <= i <= s.len(),
        all_digits(s),
    ensures
        digits_value(s.subrange(0, i)) <= digits_value(s),
    decreases s.len(),
{
    if i < s.len() {
        let d = s.drop_last();
        assert(all_digits(d)) by {
            assert forall|j: int| 0 <= j < d.len() implies is_digit(#[trigger] d[j]) by {
                assert(d[j] == s[j]);
            };
        };
        lemma_prefix_value_le(d, i);
        assert(d.subrange(0, i) =~= s.subrange(0, i));
        assert(is_digit(s[s.len() - 1]));
    } else {
        assert(s.subrange(0, i) =~= s);
    }
}

/// Reads a number written in decimal digits; `None` for an empty text, a character that
/// is not a digit, or a number beyond `u64`.
pub fn parse_decimal(s: &str) -> (r: Option<u64>)
    ensures
        r matches Some(v) ==> s@.len() > 0 && all_digits(s@) && v == digits_value(s@),
        s@.len() > 0 && all_digits(s@) && digits_value(s@) <= u64::MAX ==> r is Some,
{
    let n = s.unicode_len();
    if n == 0 {
        return None;
    }
    let mut acc: u64 = 0;
    let mut i: usize = 0;
    assert(s@.subrange(0, 0) =~= Seq::<char>::empty());
    while i < n
        invariant
            n == s@.len(),
            i <= n,
            all_digits(s@.subrange(0, i as int)),
            acc == digits_value(s@.subrange(0, i as int)),
        decreases n - i,
    {
        let c = s.get_char(i);
        let ghost next = s@.subrange(0, i + 1);
        assert(next.drop_last() =~= s@.subrange(0, i as int));
        if !('0' <= c && c <= '9') {
            assert(!all_digits(s@)) by {
                assert(!is_digit(s@[i as int]));
            };
            return None;
        }
        let d = (c as u32 - 48) as u64;
        if acc > (u64::MAX - d) / 10 {
            proof {
                if all_digits(s@) {
                    lemma_prefix_value_le(s@, i + 1);
                }
            }
            return None;
        }
        acc = acc * 10 + d;
        assert(all_digits(next)) by {
            assert forall|j: int| 0 <= j < next.len() implies is_digit(#[trigger] next[j]) by {
                if j < i {
                    assert(next[j] == s@.subrange(0, i as int)[j]);
                }
            };
        };
        i = i + 1;
    }
    assert(s@.subrange(0, n as int) =~= s@);
    Some(acc)
}

/// The fields of a challenge as read back from its text; the times as their text.
pub struct ParsedMessage {
    pub domain: String,
    pub address: String,
    pub statement: String,
    pub uri: String,
    pub version: u8,
    pub chain_id: u32,
    pub nonce: String,
    pub issued_at: String,
    pub expiration_time: String,
}

/// The text fields of `m`, and the text of its times, hold no line break.
pub open spec fn fields_line_free(m: SiweMessage) -> bool {
    &&& line_free(m.domain@)
    &&& line_free(m.address@)
    &&& line_free(m.statement@)
    &&& line_free(m.uri@)
    &&& line_free(m.nonce@)
    &&& line_free(rfc3339_of(m.issued_at as int))
    &&& line_free(rfc3339_of(m.expiration_time as int))
}

/// The lines of the rendered challenge `m`.
pub open spec fn message_lines(m: SiweMessage) -> Seq<Seq<char>> {
    seq![
        m.domain@ + " wants you to sign in with your Ethereum account:"@,
        m.address@,
        Seq::empty(),
        m.statement@,
        Seq::empty(),
        "URI: "@ + m.uri@,
        "Version: "@ + decimal(m.version as nat),
        "Chain ID: "@ + decimal(m.chain_id as nat),
        "Nonce: "@ + m.nonce@,
        "Issued At: "@ + rfc3339_of(m.issued_at as int),
        "Expiration Time: "@ + rfc3339_of(m.expiration_time as int),
    ]
}

proof fn lemma_free_concat(a: Seq<char>, b: Seq<char>)
    requires
        line_free(a),
        line_free(b),
    ensures
        line_free(a + b),
{
    assert forall|i: int| 0 <= i < (a + b).len() implies (a + b)[i] != '\n' by {
        if i >= a.len() {
            assert((a + b)[i] == b[i - a.len()]);
        }
    };
}

proof fn lemma_literals()
    ensures
        " wants you to sign in with your Ethereum account:\n"@ == " wants you to sign in with your Ethereum account:"@ + seq!['\n'],
        "\n\n"@ == seq!['\n'] + Seq::<char>::empty() + seq!['\n'],
        "\n\nURI: "@ == seq!['\n'] + Seq::<char>::empty() + seq!['\n'] + "URI: "@,
        "\nVersion: "@ == seq!['\n'] + "Version: "@,
        "\nChain ID: "@ == seq!['\n'] + "Chain ID: "@,
        "\nNonce: "@ == seq!['\n'] + "Nonce: "@,
        "\nIssued At: "@ == seq!['\n'] + "Issued At: "@,
        "\nExpiration Time: "@ == seq!['\n'] + "Expiration Time: "@,
        line_free(" wants you to sign in with your Ethereum account:"@),
        line_free("URI: "@),
        line_free("Version: "@),
        line_free("Chain ID: "@),
        line_free("Nonce: "@),
        line_free("Issued At: "@),
        line_free("Expiration Time: "@),
{
    reveal_strlit(" wants you to sign in with your Ethereum account:\n");
    reveal_strlit(" wants you to sign in with your Ethereum account:");
    reveal_strlit("\n\n");
    reveal_strlit("\n\nURI: ");
    reveal_strlit("URI: ");
    reveal_strlit("\nVersion: ");
    reveal_strlit("Version: ");
    reveal_strlit("\nChain ID: ");
    reveal_strlit("Chain ID: ");
    reveal_strlit("\nNonce: ");
    reveal_strlit("Nonce: ");
    reveal_strlit("\nIssued At: ");
    reveal_strlit("Issued At: ");
    reveal_strlit("\nExpiration Time: ");
    reveal_strlit("Expiration Time: ");
    assert(" wants you to sign in with your Ethereum account:\n"@ =~= " wants you to sign in with your Ethereum account:"@ + seq!['\n']);
    assert("\n\n"@ =~= seq!['\n'] + Seq::<char>::empty() + seq!['\n']);
    assert("\n\nURI: "@ =~= seq!['\n'] + Seq::<char>::empty() + seq!['\n'] + "URI: "@);
    assert("\nVersion: "@ =~= seq!['\n'] + "Version: "@);
    assert("\nChain ID: "@ =~= seq!['\n'] + "Chain ID: "@);
    assert("\nNonce: "@ =~= seq!['\n'] + "Nonce: "@);
    assert("\nIssued At: "@ =~= seq!['\n'] + "Issued At: "@);
    assert("\nExpiration Time: "@ =~= seq!['\n'] + "Expiration Time: "@);
}

/// The lines of `ls`, joined with line breaks.
pub open spec fn joined(ls: Seq<Seq<char>>) -> Seq<char>
    decreases ls.len(),
{
    if ls.len() <= 1 {
        if ls.len() == 0 {
            Seq::empty()
        } else {
            ls[0]
        }
    } else {
        joined(ls.drop_last()) + seq!['\n'] + ls.last()
    }
}

proof fn lemma_joined_lines(ls: Seq<Seq<char>>)
    requires
        ls.len() >= 1,
        forall|k: int| 0 <= k < ls.len() ==> line_free(#[trigger] ls[k]),
    ensures
        lines(joined(ls)) == ls,
    decreases ls.len(),
{
    if ls.len() == 1 {
        let e = Seq::<char>::empty();
        lemma_lines_extend(e, ls[0]);
        assert(e + ls[0] =~= ls[0]);
        assert(lines(ls[0]) =~= ls);
    } else {
        let d = ls.drop_last();
        assert forall|k: int| 0 <= k < d.len() implies line_free(#[trigger] d[k]) by {
            assert(d[k] == ls[k]);
        };
        lemma_joined_lines(d);
        assert(line_free(ls[ls.len() - 1]));
        lemma_lines_break(joined(d), ls.last());
        assert(d.push(ls.last()) =~= ls);
    }
}

#[verifier::rlimit(40)]
proof fn lemma_rendered_joined(m: SiweMessage)
    ensures
        rendered(m) == joined(message_lines(m)),
{
    lemma_literals();
    let ls = message_lines(m);
    let nl = seq!['\n'];
    let mut k: int = 1;
    assert(joined(ls.subrange(0, 1)) == ls[0]);
    let head = " wants you to sign in with your Ethereum account:"@;
    let t1 = m.domain@ + " wants you to sign in with your Ethereum account:\n"@ + m.address@;
    assert(t1 =~= ls[0] + nl + ls[1]);
    let t3 = t1 + "\n\n"@ + m.statement@;
    assert(t3 =~= ls[0] + nl + ls[1] + nl + ls[2] + nl + ls[3]);
    let t5 = t3 + "\n\nURI: "@ + m.uri@;
    assert(t5 =~= t3 + nl + ls[4] + nl + ls[5]);
    let t6 = t5 + "\nVersion: "@ + decimal(m.version as nat);
    assert(t6 =~= t5 + nl + ls[6]);
    let t7 = t6 + "\nChain ID: "@ + decimal(m.chain_id as nat);
    assert(t7 =~= t6 + nl + ls[7]);
    let t8 = t7 + "\nNonce: "@ + m.nonce@;
    assert(t8 =~= t7 + nl + ls[8]);
    let t9 = t8 + "\nIssued At: "@ + rfc3339_of(m.issued_at as int);
    assert(t9 =~= t8 + nl + ls[9]);
    let t10 = t9 + "\nExpiration Time: "@ + rfc3339_of(m.expiration_time as int);
    assert(t10 =~= t9 + nl + ls[10]);
    assert(rendered(m) == t10);
    assert(ls.subrange(0, 2).drop_last() =~= ls.subrange(0, 1));
    assert(ls.subrange(0, 3).drop_last() =~= ls.subrange(0, 2));
    assert(ls.subrange(0, 4).drop_last() =~= ls.subrange(0, 3));
    assert(ls.subrange(0, 5).drop_last() =~= ls.subrange(0, 4));
    assert(ls.subrange(0, 6).drop_last() =~= ls.subrange(0, 5));
    assert(ls.subrange(0, 7).drop_last() =~= ls.subrange(0, 6));
    assert(ls.subrange(0, 8).drop_last() =~= ls.subrange(0, 7));
    assert(ls.subrange(0, 9).drop_last() =~= ls.subrange(0, 8));
    assert(ls.subrange(0, 10).drop_last() =~= ls.subrange(0, 9));
    assert(ls.subrange(0, 11).drop_last() =~= ls.subrange(0, 10));
    assert(joined(ls.subrange(0, 2)) == ls[0] + nl + ls[1]);
    assert(joined(ls.subrange(0, 3)) == ls[0] + nl + ls[1] + nl + ls[2]);
    assert(joined(ls.subrange(0, 4)) == ls[0] + nl + ls[1] + nl + ls[2] + nl + ls[3]);
    assert(joined(ls.subrange(0, 4)) == t3);
    assert(joined(ls.subrange(0, 5)) == t3 + nl + ls[4]);
    assert(joined(ls.subrange(0, 6)) == t5);
    assert(joined(ls.subrange(0, 7)) == t6);
    assert(joined(ls.subrange(0, 8)) == t7);
    assert(joined(ls.subrange(0, 9)) == t8);
    assert(joined(ls.subrange(0, 10)) == t9);
    assert(joined(ls.subrange(0, 11)) == t10);
    assert(ls.subrange(0, 11) =~= ls);
}

/// A rendered challenge whose fields hold no line break has exactly the expected lines.
pub proof fn lemma_rendered_lines(m: SiweMessage)
    requires
        fields_line_free(m),
    ensures
        lines(rendered(m)) == message_lines(m),
{
    lemma_literals();
    let ls = message_lines(m);
    lemma_decimal_digits(m.version as nat);
    lemma_decimal_digits(m.chain_id as nat);
    assert forall|k: int| 0 <= k < ls.len() implies line_free(#[trigger] ls[k]) by {
        if k == 0 {
            lemma_free_concat(m.domain@, " wants you to sign in with your Ethereum account:"@);
        } else if k == 5 {
            lemma_free_concat("URI: "@, m.uri@);
        } else if k == 6 {
            lemma_free_concat("Version: "@, decimal(m.version as nat));
        } else if k == 7 {
            lemma_free_concat("Chain ID: "@, decimal(m.chain_id as nat));
        } else if k == 8 {
            lemma_free_concat("Nonce: "@, m.nonce@);
        } else if k == 9 {
            lemma_free_concat("Issued At: "@, rfc3339_of(m.issued_at as int));
        } else if k == 10 {
            lemma_free_concat("Expiration Time: "@, rfc3339_of(m.expiration_time as int));
        }
    };
    lemma_rendered_joined(m);
    lemma_joined_lines(ls);
}

/// The rest of `line` after `prefix`, when it starts with it.
pub fn strip_prefix(line: &String, prefix: &str) -> (r: Option<String>)
    ensures
        r is Some <==> line@.len() >= prefix@.len() && line@.subrange(0, prefix@.len() as int) == prefix@,
        r matches Some(x) ==> x@ == line@.subrange(prefix@.len() as int, line@.len() as int),
{
    let n = line.as_str().unicode_len();
    let p = prefix.unicode_len();
    if p > n {
        return None;
    }
    let head = line.as_str().substring_char(0, p).to_owned();
    if head == prefix.to_owned() {
        Some(line.as_str().substring_char(p, n).to_owned())
    } else {
        None
    }
}

/// The start of `line` before `suffix`, when it ends with it.
pub fn strip_suffix(line: &String, suffix: &str) -> (r: Option<String>)
    ensures
        r is Some <==> line@.len() >= suffix@.len() && line@.subrange(
            line@.len() - suffix@.len(),
            line@.len() as int,
        ) == suffix@,
        r matches Some(x) ==> x@ == line@.subrange(0, line@.len() - suffix@.len()),
{
    let n = line.as_str().unicode_len();
    let p = suffix.unicode_len();
    if p > n {
        return None;
    }
    let tail = line.as_str().substring_char(n - p, n).to_owned();
    if tail == suffix.to_owned() {
        Some(line.as_str().substring_char(0, n - p).to_owned())
    } else {
        None
    }
}

/// Reads the fields of a challenge back from its text.
pub fn parse_message(text: &String) -> (r: Option<ParsedMessage>)
    ensures
        forall|m: SiweMessage|
            #[trigger] rendered(m) == text@ && fields_line_free(m) ==> (r matches Some(p) && p.domain@
                == m.domain@ && p.address@ == m.address@ && p.statement@ == m.statement@ && p.uri@
                == m.uri@ && p.version == m.version && p.chain_id == m.chain_id && p.nonce@
                == m.nonce@ && p.issued_at@ == rfc3339_of(m.issued_at as int) && p.expiration_time@
                == rfc3339_of(m.expiration_time as int)),
{
    let ls = split_lines(text.as_str());
    let ghost v = string_views(ls@);
    proof {
        lemma_literals();
        reveal_strlit(" wants you to sign in with your Ethereum account:");
        reveal_strlit("URI: ");
        reveal_strlit("Version: ");
        reveal_strlit("Chain ID: ");
        reveal_strlit("Nonce: ");
        reveal_strlit("Issued At: ");
        reveal_strlit("Expiration Time: ");
    }
    if ls.len() != 11 {
        proof {
            assert forall|m: SiweMessage| !(#[trigger] rendered(m) == text@ && fields_line_free(m)) by {
                if rendered(m) == text@ && fields_line_free(m) {
                    lemma_rendered_lines(m);
                    assert(message_lines(m).len() == 11);
                    assert(v.len() == ls@.len());
                }
            };
        }
        return None;
    }
    assert(forall|k: int| 0 <= k < 11 ==> v[k] == (#[trigger] ls@[k])@);
    let domain = strip_suffix(&ls[0], " wants you to sign in with your Ethereum account:");
    let uri = strip_prefix(&ls[5], "URI: ");
    let version = strip_prefix(&ls[6], "Version: ");
    let chain_id = strip_prefix(&ls[7], "Chain ID: ");
    let nonce = strip_prefix(&ls[8], "Nonce: ");
    let issued_at = strip_prefix(&ls[9], "Issued At: ");
    let expiration_time = strip_prefix(&ls[10], "Expiration Time: ");
    let blank2 = ls[2].as_str().unicode_len() == 0;
    let blank4 = ls[4].as_str().unicode_len() == 0;
    match (domain, uri, version, chain_id, nonce, issued_at, expiration_time) {
        (Some(domain), Some(uri), Some(version), Some(chain_id), Some(nonce), Some(issued_at), Some(expiration_time)) => {
            let version_number = parse_decimal(version.as_str());
            let chain_number = parse_decimal(chain_id.as_str());
            match (version_number, chain_number) {
                (Some(vn), Some(cn)) => {
                    if blank2 && blank4 && vn <= 255 && cn <= 4294967295 {
                        let p = ParsedMessage {
                            domain,
                            address: ls[1].clone(),
                            statement: ls[3].clone(),
                            uri,
                            version: vn as u8,
                            chain_id: cn as u32,
                            nonce,
                            issued_at,
                            expiration_time,
                        };
                        proof {
                            assert forall|m: SiweMessage| #[trigger] rendered(m) == text@ && fields_line_free(m) implies p.domain@
                                == m.domain@ && p.address@ == m.address@ && p.statement@ == m.statement@ && p.uri@
                                == m.uri@ && p.version == m.version && p.chain_id == m.chain_id && p.nonce@
                                == m.nonce@ && p.issued_at@ == rfc3339_of(m.issued_at as int) && p.expiration_time@
                                == rfc3339_of(m.expiration_time as int) by {
                                lemma_rendered_lines(m);
                                lemma_decimal_digits(m.version as nat);
                                lemma_decimal_digits(m.chain_id as nat);
                                let ml = message_lines(m);
                                assert(v == ml);
                                assert(ml[0].subrange(0, ml[0].len() - 49) =~= m.domain@);
                                assert(ml[5].subrange(5, ml[5].len() as int) =~= m.uri@);
                                assert(ml[6].subrange(9, ml[6].len() as int) =~= decimal(m.version as nat));
                                assert(ml[7].subrange(10, ml[7].len() as int) =~= decimal(m.chain_id as nat));
                                assert(ml[8].subrange(7, ml[8].len() as int) =~= m.nonce@);
                                assert(ml[9].subrange(11, ml[9].len() as int) =~= rfc3339_of(m.issued_at as int));
                                assert(ml[10].subrange(17, ml[10].len() as int) =~= rfc3339_of(m.expiration_time as int));
                            };
                        }
                        return Some(p);
                    }
                },
                _ => {},
            }
        },
        _ => {},
    }
    proof {
        assert forall|m: SiweMessage| !(#[trigger] rendered(m) == text@ && fields_line_free(m)) by {
            if rendered(m) == text@ && fields_line_free(m) {
                lemma_rendered_lines(m);
                lemma_decimal_digits(m.version as nat);
                lemma_decimal_digits(m.chain_id as nat);
                let ml = message_lines(m);
                assert(v == ml);
                assert(ml[0].subrange(ml[0].len() - 49, ml[0].len() as int) =~= " wants you to sign in with your Ethereum account:"@);
                assert(ml[5].subrange(0, 5) =~= "URI: "@);
                assert(ml[6].subrange(0, 9) =~= "Version: "@);
                assert(ml[7].subrange(0, 10) =~= "Chain ID: "@);
                assert(ml[8].subrange(0, 7) =~= "Nonce: "@);
                assert(ml[9].subrange(0, 11) =~= "Issued At: "@);
                assert(ml[10].subrange(0, 17) =~= "Expiration Time: "@);
                assert(ml[6].subrange(9, ml[6].len() as int) =~= decimal(m.version as nat));
                assert(ml[7].subrange(10, ml[7].len() as int) =~= decimal(m.chain_id as nat));
            }
        };
    }
    None
}

} // verus!
