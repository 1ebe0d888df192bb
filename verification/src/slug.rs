//! Derivation of URL-safe slugs from diacritic-bearing display names.
//!
//! A slug is obtained in three stages: every character is folded through a
//! fixed substitution table (case folding, removal of Czech diacritics,
//! space to hyphen, anything else dropped), runs of hyphens are collapsed
//! to a single hyphen, and a hyphen standing at either end is removed.

use vstd::prelude::*;

verus! {

/// A character that may appear in a finished slug: a lowercase ASCII
/// letter, an ASCII digit, or a hyphen.
pub open spec fn is_slug_char(c: char) -> bool {
    is_kept_verbatim(c) || c == '-'
}

/// A character the substitution table passes through unchanged:
/// a lowercase ASCII letter or an ASCII digit.
pub open spec fn is_kept_verbatim(c: char) -> bool {
    (('a' as u32) <= (c as u32) && (c as u32) <= ('z' as u32)) || (('0' as u32) <= (c as u32)
        && (c as u32) <= ('9' as u32))
}

/// The fixed substitution table: what one character of a display name
/// contributes to the raw slug text. Lowercase ASCII letters and digits
/// pass through; uppercase ASCII letters fold to lowercase; each Czech
/// diacritic letter (either case) maps to its unaccented base letter; a
/// space maps to a hyphen and a hyphen stays; every other character is
/// dropped.
pub open spec fn translit(c: char) -> Option<char> {
    if is_kept_verbatim(c) {
        Some(c)
    } else {
        match c {
            'A' => Some('a'),
            'B' => Some('b'),
            'C' => Some('c'),
            'D' => Some('d'),
            'E' => Some('e'),
            'F' => Some('f'),
            'G' => Some('g'),
            'H' => Some('h'),
            'I' => Some('i'),
            'J' => Some('j'),
            'K' => Some('k'),
            'L' => Some('l'),
            'M' => Some('m'),
            'N' => Some('n'),
            'O' => Some('o'),
            'P' => Some('p'),
            'Q' => Some('q'),
            'R' => Some('r'),
            'S' => Some('s'),
            'T' => Some('t'),
            'U' => Some('u'),
            'V' => Some('v'),
            'W' => Some('w'),
            'X' => Some('x'),
            'Y' => Some('y'),
            'Z' => Some('z'),
            'á' | 'à' | 'Á' | 'À' => Some('a'),
            'č' | 'Č' => Some('c'),
            'ď' | 'Ď' => Some('d'),
            'é' | 'ě' | 'è' | 'É' | 'Ě' | 'È' => Some('e'),
            'í' | 'ì' | 'Í' | 'Ì' => Some('i'),
            'ň' | 'Ň' => Some('n'),
            'ó' | 'ò' | 'Ó' | 'Ò' => Some('o'),
            'ř' | 'Ř' => Some('r'),
            'š' | 'Š' => Some('s'),
            'ť' | 'Ť' => Some('t'),
            'ú' | 'ů' | 'ù' | 'Ú' | 'Ů' | 'Ù' => Some('u'),
            'ý' | 'ỳ' | 'Ý' | 'Ỳ' => Some('y'),
            'ž' | 'Ž' => Some('z'),
            ' ' | '-' => Some('-'),
            _ => None,
        }
    }
}

/// The raw slug text of a name: the concatenation of what the substitution
/// table yields for each character, in order.
pub open spec fn mapped(s: Seq<char>) -> Seq<char>
    decreases s.len(),
{
    if s.len() == 0 {
        Seq::empty()
    } else {
        let prefix = mapped(s.drop_last());
        match translit(s.last()) {
            Some(c) => prefix.push(c),
            None => prefix,
        }
    }
}

/// Raw slug text with every run of consecutive hyphens collapsed to one:
/// a hyphen is dropped exactly when the text kept so far already ends in
/// a hyphen.
pub open spec fn collapsed(s: Seq<char>) -> Seq<char>
    decreases s.len(),
{
    if s.len() == 0 {
        Seq::empty()
    } else {
        let prefix = collapsed(s.drop_last());
        if s.last() == '-' && prefix.len() > 0 && prefix.last() == '-' {
            prefix
        } else {
            prefix.push(s.last())
        }
    }
}

/// Removal of a hyphen standing at either end. After collapsing, at most
/// one hyphen can stand at each end, so dropping one there is all the
/// trimming a slug ever needs.
pub open spec fn edge_trimmed(s: Seq<char>) -> Seq<char> {
    let t = if s.len() > 0 && s[0] == '-' {
        s.drop_first()
    } else {
        s
    };
    if t.len() > 0 && t.last() == '-' {
        t.drop_last()
    } else {
        t
    }
}

/// The slug of a display name: substitution, hyphen-run collapse, edge trim.
pub open spec fn slug_seq(name: Seq<char>) -> Seq<char> {
    edge_trimmed(collapsed(mapped(name)))
}

/// Every character of the text is a slug character.
pub open spec fn all_slug_chars(s: Seq<char>) -> bool {
    forall|i: int| 0 <= i < s.len() ==> is_slug_char(#[trigger] s[i])
}

/// No two consecutive characters of the text are both hyphens.
pub open spec fn no_double_hyphen(s: Seq<char>) -> bool {
    forall|i: int| 0 <= i && i + 1 < s.len() ==> !(s[i] == '-' && #[trigger] s[i + 1] == '-')
}

/// Whatever the substitution table yields is a slug character.
proof fn lemma_translit_slug_char(c: char)
    ensures
        translit(c) is Some ==> is_slug_char(translit(c)->0),
{
}

/// The raw slug text of any name is made of slug characters alone.
proof fn lemma_mapped_slug_chars(s: Seq<char>)
    ensures
        all_slug_chars(mapped(s)),
    decreases s.len(),
{
    if s.len() == 0 {
    } else {
        lemma_mapped_slug_chars(s.drop_last());
        lemma_translit_slug_char(s.last());
        let prefix = mapped(s.drop_last());
        match translit(s.last()) {
            Some(c) => {
                assert forall|i: int| 0 <= i < prefix.push(c).len() implies is_slug_char(
                    #[trigger] prefix.push(c)[i],
                ) by {
                    if i < prefix.len() {
                        assert(prefix.push(c)[i] == prefix[i]);
                    }
                }
            },
            None => {},
        }
    }
}

/// Collapsing keeps only slug characters, leaves no two hyphens adjacent,
/// and keeps the last character of a nonempty text.
proof fn lemma_collapsed_wellformed(s: Seq<char>)
    requires
        all_slug_chars(s),
    ensures
        all_slug_chars(collapsed(s)),
        no_double_hyphen(collapsed(s)),
        s.len() > 0 ==> collapsed(s).len() > 0 && collapsed(s).last() == s.last(),
    decreases s.len(),
{
    if s.len() == 0 {
    } else {
        assert forall|i: int| 0 <= i < s.drop_last().len() implies is_slug_char(
            #[trigger] s.drop_last()[i],
        ) by {
            assert(s.drop_last()[i] == s[i]);
        }
        lemma_collapsed_wellformed(s.drop_last());
        let prefix = collapsed(s.drop_last());
        let c = s.last();
        assert(is_slug_char(c));
        if c == '-' && prefix.len() > 0 && prefix.last() == '-' {
        } else {
            let q = prefix.push(c);
            assert forall|i: int| 0 <= i < q.len() implies is_slug_char(#[trigger] q[i]) by {
                if i < prefix.len() {
                    assert(q[i] == prefix[i]);
                }
            }
            assert forall|i: int| 0 <= i && i + 1 < q.len() implies !(q[i] == '-' && #[trigger] q[i
                + 1] == '-') by {
                if i + 1 < prefix.len() {
                    assert(q[i] == prefix[i] && q[i + 1] == prefix[i + 1]);
                } else {
                    assert(q[i + 1] == c);
                    if c == '-' {
                        assert(q[i] == prefix.last());
                    }
                }
            }
        }
    }
}

/// Every slug is made of lowercase ASCII letters, digits and hyphens
/// alone, never starts or ends with a hyphen, and never holds two
/// consecutive hyphens.
pub proof fn lemma_slug_wellformed(name: Seq<char>)
    ensures
        all_slug_chars(slug_seq(name)),
        no_double_hyphen(slug_seq(name)),
        slug_seq(name).len() > 0 ==> slug_seq(name)[0] != '-',
        slug_seq(name).len() > 0 ==> slug_seq(name).last() != '-',
{
    lemma_mapped_slug_chars(name);
    lemma_collapsed_wellformed(mapped(name));
    let s = collapsed(mapped(name));
    let t = if s.len() > 0 && s[0] == '-' {
        s.drop_first()
    } else {
        s
    };
    assert forall|i: int| 0 <= i < t.len() implies is_slug_char(#[trigger] t[i]) by {
        if s.len() > 0 && s[0] == '-' {
            assert(t[i] == s[i + 1]);
        }
    }
    assert forall|i: int| 0 <= i && i + 1 < t.len() implies !(t[i] == '-' && #[trigger] t[i + 1]
        == '-') by {
        if s.len() > 0 && s[0] == '-' {
            assert(t[i] == s[i + 1] && t[i + 1] == s[i + 2]);
        }
    }
    assert(t.len() > 0 ==> t[0] != '-') by {
        if t.len() > 0 && s[0] == '-' {
            assert(t[0] == s[1]);
        }
    }
    let u = slug_seq(name);
    assert forall|i: int| 0 <= i < u.len() implies is_slug_char(#[trigger] u[i]) by {
        assert(u[i] == t[i]);
    }
    assert forall|i: int| 0 <= i && i + 1 < u.len() implies !(u[i] == '-' && #[trigger] u[i + 1]
        == '-') by {
        assert(u[i] == t[i] && u[i + 1] == t[i + 1]);
    }
    if u.len() > 0 {
        assert(u[0] == t[0]);
        if t.len() > 0 && t.last() == '-' {
            assert(u.last() == t[t.len() - 2]);
            assert(!(t[t.len() - 2] == '-' && t[t.len() - 2 + 1] == '-'));
        } else {
            assert(u.last() == t.last());
        }
    }
}

/// One executable step of the substitution table.
fn translit_char(c: char) -> (r: Option<char>)
    ensures
        r == translit(c),
{
    let u = c as u32;
    if (('a' as u32) <= u && u <= ('z' as u32)) || (('0' as u32) <= u && u <= ('9' as u32)) {
        Some(c)
    } else {
        match c {
            'A' => Some('a'),
            'B' => Some('b'),
            'C' => Some('c'),
            'D' => Some('d'),
            'E' => Some('e'),
            'F' => Some('f'),
            'G' => Some('g'),
            'H' => Some('h'),
            'I' => Some('i'),
            'J' => Some('j'),
            'K' => Some('k'),
            'L' => Some('l'),
            'M' => Some('m'),
            'N' => Some('n'),
            'O' => Some('o'),
            'P' => Some('p'),
            'Q' => Some('q'),
            'R' => Some('r'),
            'S' => Some('s'),
            'T' => Some('t'),
            'U' => Some('u'),
            'V' => Some('v'),
            'W' => Some('w'),
            'X' => Some('x'),
            'Y' => Some('y'),
            'Z' => Some('z'),
            'á' | 'à' | 'Á' | 'À' => Some('a'),
            'č' | 'Č' => Some('c'),
            'ď' | 'Ď' => Some('d'),
            'é' | 'ě' | 'è' | 'É' | 'Ě' | 'È' => Some('e'),
            'í' | 'ì' | 'Í' | 'Ì' => Some('i'),
            'ň' | 'Ň' => Some('n'),
            'ó' | 'ò' | 'Ó' | 'Ò' => Some('o'),
            'ř' | 'Ř' => Some('r'),
            'š' | 'Š' => Some('s'),
            'ť' | 'Ť' => Some('t'),
            'ú' | 'ů' | 'ù' | 'Ú' | 'Ů' | 'Ù' => Some('u'),
            'ý' | 'ỳ' | 'Ý' | 'Ỳ' => Some('y'),
            'ž' | 'Ž' => Some('z'),
            ' ' | '-' => Some('-'),
            _ => None,
        }
    }
}

/// Relies on String::push: appends the given character to the end of the
/// string.
#[verifier::external_body]
fn push_char(s: &mut String, c: char)
    ensures
        final(s)@ == old(s)@.push(c),
{
    s.push(c);
}

/// Derives the URL-safe slug of a display name: lowercase, Czech
/// diacritics stripped, spaces turned into hyphens, other punctuation
/// dropped, hyphen runs collapsed, and no hyphen left at either end.
pub fn slug_from_name(name: &str) -> (r: String)
    ensures
        r@ == slug_seq(name@),
{
    let n: usize = name.unicode_len();
    let mut raw: Vec<char> = Vec::new();
    let mut i: usize = 0;
    while i < n
        invariant
            i <= n,
            n == name@.len(),
            raw@ == mapped(name@.take(i as int)),
        decreases n - i,
    {
        let c = name.get_char(i);
        proof {
            assert(name@.take(i + 1).drop_last() =~= name@.take(i as int));
            assert(name@.take(i + 1).last() == name@[i as int]);
        }
        match translit_char(c) {
            Some(t) => raw.push(t),
            None => (),
        }
        i = i + 1;
    }
    proof {
        assert(name@.take(n as int) =~= name@);
    }
    let mut col: Vec<char> = Vec::new();
    let mut j: usize = 0;
    while j < raw.len()
        invariant
            j <= raw@.len(),
            raw@ == mapped(name@),
            col@ == collapsed(raw@.take(j as int)),
        decreases raw@.len() - j,
    {
        let c = raw[j];
        proof {
            assert(raw@.take(j + 1).drop_last() =~= raw@.take(j as int));
            assert(raw@.take(j + 1).last() == raw@[j as int]);
        }
        if c == '-' && col.len() > 0 {
            let last = col[col.len() - 1];
            if last != '-' {
                col.push(c);
            }
        } else {
            col.push(c);
        }
        j = j + 1;
    }
    proof {
        assert(raw@.take(raw@.len() as int) =~= raw@);
    }
    let mut start: usize = 0;
    let mut end: usize = col.len();
    if col.len() > 0 && col[0] == '-' {
        start = 1;
    }
    if end > start && col[end - 1] == '-' {
        end = end - 1;
    }
    proof {
        assert(col@.subrange(start as int, end as int) =~= slug_seq(name@));
    }
    let mut out = String::new();
    let mut k: usize = start;
    while k < end
        invariant
            start <= k <= end <= col@.len(),
            out@ == col@.subrange(start as int, k as int),
        decreases end - k,
    {
        let c = col[k];
        push_char(&mut out, c);
        proof {
            assert(col@.subrange(start as int, k + 1) =~= col@.subrange(start as int, k as int).push(
                col@[k as int],
            ));
        }
        k = k + 1;
    }
    out
}

} // verus!
