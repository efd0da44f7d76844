//! Record identifiers: thirty-two lowercase hexadecimal digits, made from the
//! text of a random UUID by taking its hyphens out.

use vstd::prelude::*;
use crate::text::chars_of;

verus! {

/// The length of an identifier.
pub const ID_LENGTH: usize = 32;

/// Whether `c` is a digit or one of the letters `a` to `f`.
pub open spec fn is_lower_hex(c: char) -> bool {
    ('0' <= c && c <= '9') || ('a' <= c && c <= 'f')
}

/// Whether `s` is an identifier.
pub open spec fn is_id(s: Seq<char>) -> bool {
    s.len() == ID_LENGTH && forall|i: int| 0 <= i < s.len() ==> is_lower_hex(#[trigger] s[i])
}

/// Whether `s` is a UUID in its hyphenated lowercase form: five groups of
/// 8, 4, 4, 4 and 12 hexadecimal digits with a hyphen between them.
pub open spec fn is_hyphenated_uuid(s: Seq<char>) -> bool {
    &&& s.len() == 36
    &&& forall|i: int|
        0 <= i < 36 ==> if i == 8 || i == 13 || i == 18 || i == 23 {
            #[trigger] s[i] == '-'
        } else {
            is_lower_hex(s[i])
        }
}

/// `s` without the occurrences of `c`.
pub open spec fn without_char(s: Seq<char>, c: char) -> Seq<char>
    decreases s.len(),
{
    if s.len() == 0 {
        Seq::empty()
    } else if s.last() == c {
        without_char(s.drop_last(), c)
    } else {
        without_char(s.drop_last(), c).push(s.last())
    }
}

/// Taking a character out of two strings in a row is taking it out of each.
pub proof fn lemma_without_char_concat(a: Seq<char>, b: Seq<char>, c: char)
    ensures
        without_char(a + b, c) == without_char(a, c) + without_char(b, c),
    decreases b.len(),
{
    if b.len() == 0 {
        assert(a + b =~= a);
        assert(without_char(a, c) + without_char(b, c) =~= without_char(a, c));
    } else {
        let whole = a + b;
        assert(whole.drop_last() =~= a + b.drop_last());
        assert(whole.last() == b.last());
        lemma_without_char_concat(a, b.drop_last(), c);
        assert(without_char(a + b, c) =~= without_char(a, c) + without_char(b, c));
    }
}

/// A string that does not hold the character stays as it is.
pub proof fn lemma_without_char_absent(s: Seq<char>, c: char)
    requires
        forall|i: int| 0 <= i < s.len() ==> s[i] != c,
    ensures
        without_char(s, c) == s,
    decreases s.len(),
{
    if s.len() > 0 {
        lemma_without_char_absent(s.drop_last(), c);
        assert(s.drop_last().push(s.last()) =~= s);
    }
}

/// A hyphenated UUID without its hyphens is an identifier: the digits of
/// its five groups in a row.
pub proof fn lemma_uuid_without_hyphens(s: Seq<char>)
    requires
        is_hyphenated_uuid(s),
    ensures
        is_id(without_char(s, '-')),
        without_char(s, '-') == s.subrange(0, 8) + s.subrange(9, 13) + s.subrange(14, 18)
            + s.subrange(19, 23) + s.subrange(24, 36),
{
    let hyphen = seq!['-'];
    let g1 = s.subrange(0, 8);
    let g2 = s.subrange(9, 13);
    let g3 = s.subrange(14, 18);
    let g4 = s.subrange(19, 23);
    let g5 = s.subrange(24, 36);
    assert(s[8] == '-' && s[13] == '-' && s[18] == '-' && s[23] == '-');
    assert(s =~= g1 + hyphen + g2 + hyphen + g3 + hyphen + g4 + hyphen + g5);
    assert(hyphen.drop_last() =~= Seq::<char>::empty());
    assert(hyphen.last() == '-');
    assert(without_char(hyphen.drop_last(), '-') =~= Seq::<char>::empty());
    assert(without_char(hyphen, '-') =~= Seq::<char>::empty());
    assert forall|i: int| 0 <= i < g1.len() implies g1[i] != '-' by {
        assert(is_lower_hex(s[i]));
    }
    assert forall|i: int| 0 <= i < g2.len() implies g2[i] != '-' by {
        assert(is_lower_hex(s[i + 9]));
    }
    assert forall|i: int| 0 <= i < g3.len() implies g3[i] != '-' by {
        assert(is_lower_hex(s[i + 14]));
    }
    assert forall|i: int| 0 <= i < g4.len() implies g4[i] != '-' by {
        assert(is_lower_hex(s[i + 19]));
    }
    assert forall|i: int| 0 <= i < g5.len() implies g5[i] != '-' by {
        assert(is_lower_hex(s[i + 24]));
    }
    lemma_without_char_absent(g1, '-');
    lemma_without_char_absent(g2, '-');
    lemma_without_char_absent(g3, '-');
    lemma_without_char_absent(g4, '-');
    lemma_without_char_absent(g5, '-');
    lemma_without_char_concat(g1, hyphen, '-');
    lemma_without_char_concat(g1 + hyphen, g2, '-');
    lemma_without_char_concat(g1 + hyphen + g2, hyphen, '-');
    lemma_without_char_concat(g1 + hyphen + g2 + hyphen, g3, '-');
    lemma_without_char_concat(g1 + hyphen + g2 + hyphen + g3, hyphen, '-');
    lemma_without_char_concat(g1 + hyphen + g2 + hyphen + g3 + hyphen, g4, '-');
    lemma_without_char_concat(g1 + hyphen + g2 + hyphen + g3 + hyphen + g4, hyphen, '-');
    lemma_without_char_concat(g1 + hyphen + g2 + hyphen + g3 + hyphen + g4 + hyphen, g5, '-');
    let id = g1 + g2 + g3 + g4 + g5;
    assert(without_char(s, '-') =~= id);
    assert forall|i: int| 0 <= i < id.len() implies is_lower_hex(#[trigger] id[i]) by {
        if i < 8 {
            assert(id[i] == s[i]);
        } else if i < 12 {
            assert(id[i] == s[i + 1]);
        } else if i < 16 {
            assert(id[i] == s[i + 2]);
        } else if i < 20 {
            assert(id[i] == s[i + 3]);
        } else {
            assert(id[i] == s[i + 4]);
        }
    }
}

/// Takes the hyphens out of `text`.
pub fn strip_hyphens(text: &str) -> (out: String)
    ensures
        out@ == without_char(text@, '-'),
{
    let chars = chars_of(text);
    let mut out = String::new();
    let mut i: usize = 0;
    assert(chars@.take(0) =~= Seq::<char>::empty());
    while i < chars.len()
        invariant
            i <= chars.len(),
            chars@ == text@,
            out@ == without_char(chars@.take(i as int), '-'),
        decreases chars.len() - i,
    {
        proof {
            let next = chars@.take(i + 1);
            assert(next.drop_last() =~= chars@.take(i as int));
            assert(next.last() == chars@[i as int]);
        }
        if chars[i] != '-' {
            out.push(chars[i]);
        }
        i += 1;
    }
    assert(chars@.take(i as int) =~= chars@);
    out
}

/// Draws a random UUID and writes it as text.
///
/// This calls `Uuid::new_v4` of the `uuid` crate and formats the result with
/// the crate's `Display`. The contract claims of the text what that `Display`
/// writes for every UUID: 36 characters, a hyphen at the positions 8, 13, 18
/// and 23, and a lowercase hexadecimal digit at every other. It claims
/// nothing of which UUID is drawn. The call takes its randomness from the
/// operating system and aborts where the system has none to give.
#[verifier::external_body]
fn random_uuid_text() -> (text: String)
    ensures
        is_hyphenated_uuid(text@),
{
    uuid::Uuid::new_v4().to_string()
}

/// Makes a fresh identifier: the digits of a random UUID, without hyphens.
pub fn generate_id() -> (id: String)
    ensures
        is_id(id@),
{
    let text = random_uuid_text();
    proof {
        lemma_uuid_without_hyphens(text@);
    }
    strip_hyphens(text.as_str())
}

} // verus!
