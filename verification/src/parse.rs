//! Parsing of the comma-separated identifier lists the commands take.

use vstd::prelude::*;

verus! {

/// A Unicode whitespace character, as `str::trim` removes.
pub open spec fn is_space(c: char) -> bool {
    ||| c == ' '
    ||| c == '\t'
    ||| c == '\n'
    ||| c == '\u{B}'
    ||| c == '\u{C}'
    ||| c == '\r'
    ||| c == '\u{85}'
    ||| c == '\u{A0}'
    ||| c == '\u{1680}'
    ||| ('\u{2000}' <= c && c <= '\u{200A}')
    ||| c == '\u{2028}'
    ||| c == '\u{2029}'
    ||| c == '\u{202F}'
    ||| c == '\u{205F}'
    ||| c == '\u{3000}'
}

fn is_space_char(c: char) -> (r: bool)
    ensures
        r == is_space(c),
{
    c == ' ' || c == '\t' || c == '\n' || c == '\u{B}' || c == '\u{C}' || c == '\r' || c == '\u{85}'
        || c == '\u{A0}' || c == '\u{1680}' || ('\u{2000}' <= c && c <= '\u{200A}') || c
        == '\u{2028}' || c == '\u{2029}' || c == '\u{202F}' || c == '\u{205F}' || c == '\u{3000}'
}

/// A piece with its leading whitespace removed.
pub open spec fn trim_left(s: Seq<char>) -> Seq<char>
    decreases s.len(),
{
    if s.len() == 0 {
        s
    } else if is_space(s[0]) {
        trim_left(s.drop_first())
    } else {
        s
    }
}

/// A piece with its trailing whitespace removed.
pub open spec fn trim_right(s: Seq<char>) -> Seq<char>
    decreases s.len(),
{
    if s.len() == 0 {
        s
    } else if is_space(s.last()) {
        trim_right(s.drop_last())
    } else {
        s
    }
}

/// A piece with whitespace removed from both ends.
pub open spec fn trimmed(s: Seq<char>) -> Seq<char> {
    trim_right(trim_left(s))
}

proof fn lemma_trim_left_at(s: Seq<char>, a: int)
    requires
        0 <= a <= s.len(),
        forall|j: int| 0 <= j < a ==> is_space(#[trigger] s[j]),
        a == s.len() || !is_space(s[a]),
    ensures
        trim_left(s) =~= s.subrange(a, s.len() as int),
    decreases a,
{
    if a == 0 {
        if s.len() == 0 {
        } else {
            assert(!is_space(s[0]));
        }
        assert(trim_left(s) =~= s.subrange(0, s.len() as int));
    } else {
        assert(is_space(s[0]));
        let t = s.drop_first();
        assert forall|j: int| 0 <= j < a - 1 implies is_space(#[trigger] t[j]) by {
            assert(t[j] == s[j + 1]);
        }
        assert(a - 1 == t.len() || !is_space(t[a - 1]));
        lemma_trim_left_at(t, a - 1);
        assert(t.subrange(a - 1, t.len() as int) =~= s.subrange(a, s.len() as int));
    }
}

proof fn lemma_trim_right_at(s: Seq<char>, b: int)
    requires
        0 <= b <= s.len(),
        forall|j: int| b <= j < s.len() ==> is_space(#[trigger] s[j]),
        b == 0 || !is_space(s[b - 1]),
    ensures
        trim_right(s) =~= s.subrange(0, b),
    decreases s.len() - b,
{
    if b == s.len() {
        if s.len() == 0 {
        } else {
            assert(!is_space(s.last()));
        }
        assert(trim_right(s) =~= s.subrange(0, b));
    } else {
        assert(is_space(s.last()));
        let t = s.drop_last();
        assert forall|j: int| b <= j < t.len() implies is_space(#[trigger] t[j]) by {
            assert(t[j] == s[j]);
        }
        lemma_trim_right_at(t, b);
        assert(t.subrange(0, b) =~= s.subrange(0, b));
    }
}

fn trim_str<'a>(s: &'a str) -> (r: &'a str)
    ensures
        r@ == trimmed(s@),
{
    let n = s.unicode_len();
    let mut a: usize = 0;
    while a < n && is_space_char(s.get_char(a))
        invariant
            a <= n,
            n == s@.len(),
            forall|j: int| 0 <= j < a ==> is_space(#[trigger] s@[j]),
        decreases n - a,
    {
        a = a + 1;
    }
    let mut b: usize = n;
    while b > a && is_space_char(s.get_char(b - 1))
        invariant
            a <= b <= n,
            n == s@.len(),
            forall|j: int| 0 <= j < a ==> is_space(#[trigger] s@[j]),
            a == n || !is_space(s@[a as int]),
            forall|j: int| b <= j < n ==> is_space(#[trigger] s@[j]),
        decreases b,
    {
        b = b - 1;
    }
    let r = s.substring_char(a, b);
    proof {
        lemma_trim_left_at(s@, a as int);
        let t = s@.subrange(a as int, n as int);
        assert forall|j: int| (b - a) <= j < t.len() implies is_space(#[trigger] t[j]) by {
            assert(t[j] == s@[j + a]);
        }
        if b > a {
            assert(!is_space(t[b - a - 1])) by {
                assert(t[b - a - 1] == s@[b - 1]);
            }
        }
        lemma_trim_right_at(t, b - a);
        assert(t.subrange(0, b - a) =~= s@.subrange(a as int, b as int));
        assert(r@ =~= trimmed(s@));
    }
    r
}

/// The position of the first comma, or a negative value when there is none.
pub open spec fn first_comma(s: Seq<char>) -> int
    decreases s.len(),
{
    if s.len() == 0 {
        -1
    } else if s[0] == ',' {
        0
    } else {
        let r = first_comma(s.drop_first());
        if r < 0 {
            -1
        } else {
            r + 1
        }
    }
}

proof fn lemma_first_comma_at(s: Seq<char>, i: int)
    requires
        0 <= i <= s.len(),
        forall|j: int| 0 <= j < i ==> (#[trigger] s[j]) != ',',
        i == s.len() || s[i] == ',',
    ensures
        first_comma(s) == if i == s.len() {
            -1int
        } else {
            i
        },
    decreases i,
{
    if i == 0 {
        if s.len() == 0 {
        } else if s[0] == ',' {
        } else {
            assert(i == s.len() || s[i] == ',');
        }
    } else {
        assert(s[0] != ',');
        let t = s.drop_first();
        assert forall|j: int| 0 <= j < i - 1 implies (#[trigger] t[j]) != ',' by {
            assert(t[j] == s[j + 1]);
        }
        assert(i - 1 == t.len() || t[i - 1] == ',');
        lemma_first_comma_at(t, i - 1);
    }
}

/// The pieces of a text split on commas; a text without commas is one piece.
pub open spec fn split_commas(s: Seq<char>) -> Seq<Seq<char>>
    decreases s.len(),
{
    let fc = first_comma(s);
    if 0 <= fc < s.len() {
        seq![s.subrange(0, fc)] + split_commas(s.subrange(fc + 1, s.len() as int))
    } else {
        seq![s]
    }
}

/// The filter applied to the split pieces: empty pieces are dropped before
/// trimming.
pub open spec fn nonempty_piece() -> spec_fn(Seq<char>) -> bool {
    |p: Seq<char>| p.len() > 0
}

/// The pieces of a comma-separated list: split on commas, empty pieces
/// dropped, the rest trimmed.
pub open spec fn parse_list_spec(s: Seq<char>) -> Seq<Seq<char>> {
    split_commas(s).filter(nonempty_piece()).map_values(|p: Seq<char>| trimmed(p))
}

/// The character views of returned pieces.
pub open spec fn piece_views(ps: Seq<&str>) -> Seq<Seq<char>> {
    ps.map_values(|p: &str| p@)
}

/// Splits a comma-separated list into its trimmed, non-empty pieces.
pub fn parse_list<'a>(list: &'a str) -> (r: Vec<&'a str>)
    requires
        list@.len() < usize::MAX,
    ensures
        piece_views(r@) == parse_list_spec(list@),
{
    let n = list.unicode_len();
    let mut r: Vec<&'a str> = Vec::new();
    let mut p: usize = 0;
    proof {
        assert(list@.subrange(0, n as int) =~= list@);
    }
    while p <= n
        invariant
            p <= n + 1,
            n == list@.len(),
            n < usize::MAX,
            p <= n ==> parse_list_spec(list@) =~= piece_views(r@) + parse_list_spec(
                list@.subrange(p as int, n as int),
            ),
            p > n ==> parse_list_spec(list@) =~= piece_views(r@),
        decreases n + 1 - p,
    {
        let ghost suffix = list@.subrange(p as int, n as int);
        let mut q: usize = p;
        while q < n && list.get_char(q) != ','
            invariant
                p <= q <= n,
                n == list@.len(),
                forall|j: int| p <= j < q ==> (#[trigger] list@[j]) != ',',
            decreases n - q,
        {
            q = q + 1;
        }
        proof {
            assert forall|j: int| 0 <= j < q - p implies (#[trigger] suffix[j]) != ',' by {
                assert(suffix[j] == list@[j + p]);
            }
            if q < n {
                assert(suffix[q - p] == list@[q as int]);
            }
            lemma_first_comma_at(suffix, q - p);
        }
        let piece = list.substring_char(p, q);
        let ghost seg = suffix.subrange(0, q - p);
        proof {
            assert(piece@ =~= seg);
        }
        if q > p {
            let t = trim_str(piece);
            let ghost pre = piece_views(r@);
            r.push(t);
            proof {
                assert(piece_views(r@) =~= pre.push(trimmed(seg)));
            }
        }
        proof {
            reveal_with_fuel(Seq::filter, 3);
            if q == n {
                // Last piece: the suffix has no comma and is one piece.
                assert(first_comma(suffix) == -1);
                assert(split_commas(suffix) =~= seq![suffix]);
                assert(seg =~= suffix);
                assert(seq![suffix].drop_last() =~= Seq::<Seq<char>>::empty());
                if q > p {
                    assert(split_commas(suffix).filter(nonempty_piece()) =~= seq![suffix]);
                    assert(parse_list_spec(suffix) =~= seq![trimmed(suffix)]);
                } else {
                    assert(split_commas(suffix).filter(nonempty_piece()) =~= Seq::<
                        Seq<char>,
                    >::empty());
                    assert(parse_list_spec(suffix) =~= Seq::<Seq<char>>::empty());
                }
            } else {
                // The suffix splits into this piece and the rest.
                assert(first_comma(suffix) == q - p);
                let rest = suffix.subrange(q - p + 1, suffix.len() as int);
                assert(split_commas(suffix) =~= seq![seg] + split_commas(rest));
                assert(rest =~= list@.subrange(q + 1, n as int));
                Seq::filter_distributes_over_add(seq![seg], split_commas(rest), nonempty_piece());
                assert(seq![seg].drop_last() =~= Seq::<Seq<char>>::empty());
                if q > p {
                    assert(seq![seg].filter(nonempty_piece()) =~= seq![seg]);
                    assert(parse_list_spec(suffix) =~= seq![trimmed(seg)] + parse_list_spec(rest));
                } else {
                    assert(seq![seg].filter(nonempty_piece()) =~= Seq::<Seq<char>>::empty());
                    assert(parse_list_spec(suffix) =~= parse_list_spec(rest));
                }
            }
        }
        p = q + 1;
    }
    r
}

/// A decimal digit.
pub open spec fn is_digit(c: char) -> bool {
    '0' <= c && c <= '9'
}

/// The value of a run of decimal digits, most significant first.
pub open spec fn digits_val(s: Seq<char>) -> int
    decreases s.len(),
{
    if s.len() == 0 {
        0
    } else {
        digits_val(s.drop_last()) * 10 + (s.last() as int - '0' as int)
    }
}

proof fn lemma_digits_val_nonneg(s: Seq<char>)
    requires
        forall|i: int| 0 <= i < s.len() ==> is_digit(#[trigger] s[i]),
    ensures
        digits_val(s) >= 0,
    decreases s.len(),
{
    if s.len() > 0 {
        lemma_digits_val_nonneg(s.drop_last());
    }
}

proof fn lemma_digits_val_prefix(s: Seq<char>, k: int)
    requires
        0 <= k <= s.len(),
        forall|i: int| 0 <= i < s.len() ==> is_digit(#[trigger] s[i]),
    ensures
        digits_val(s.subrange(0, k)) <= digits_val(s),
    decreases s.len() - k,
{
    if k == s.len() {
        assert(s.subrange(0, k) =~= s);
    } else {
        lemma_digits_val_prefix(s, k + 1);
        let t = s.subrange(0, k + 1);
        assert(t.drop_last() =~= s.subrange(0, k));
        lemma_digits_val_nonneg(s.subrange(0, k));
        assert(digits_val(t) == digits_val(s.subrange(0, k)) * 10 + (s[k] as int - '0' as int));
        assert(digits_val(s.subrange(0, k)) * 10 >= digits_val(s.subrange(0, k)))
            by (nonlinear_arith)
            requires
                digits_val(s.subrange(0, k)) >= 0,
        ;
    }
}

/// The digits of an identifier, a single leading plus sign allowed.
pub open spec fn digits_part(s: Seq<char>) -> Seq<char> {
    if s.len() > 0 && s[0] == '+' {
        s.drop_first()
    } else {
        s
    }
}

/// How a piece parses as an identifier: a positive 64-bit number written in
/// decimal digits, with one optional leading plus sign; zero, an overflowing
/// value and any other text are rejected.
pub open spec fn parse_id_spec(s: Seq<char>) -> Option<u64> {
    let d = digits_part(s);
    if d.len() > 0 && (forall|i: int| 0 <= i < d.len() ==> is_digit(#[trigger] d[i]))
        && digits_val(d) <= u64::MAX && digits_val(d) >= 1 {
        Some(digits_val(d) as u64)
    } else {
        None
    }
}

/// Parses one piece as an identifier.
pub fn parse_id(s: &str) -> (r: Option<u64>)
    ensures
        r == parse_id_spec(s@),
{
    let n = s.unicode_len();
    let start: usize = if n > 0 && s.get_char(0) == '+' {
        1
    } else {
        0
    };
    let ghost d = digits_part(s@);
    proof {
        assert(d =~= s@.subrange(start as int, n as int));
    }
    if start == n {
        return None;
    }
    let mut acc: u64 = 0;
    let mut i: usize = start;
    while i < n
        invariant
            start <= i <= n,
            n == s@.len(),
            start <= 1,
            d == digits_part(s@),
            d == s@.subrange(start as int, n as int),
            n > start,
            forall|j: int| 0 <= j < i - start ==> is_digit(#[trigger] d[j]),
            acc as int == digits_val(d.subrange(0, i - start)),
        decreases n - i,
    {
        let c = s.get_char(i);
        if !(c >= '0' && c <= '9') {
            proof {
                assert(d[i - start] == s@[i as int]);
                assert(!is_digit(d[i - start]));
            }
            return None;
        }
        let dv: u64 = (c as u32 - 48) as u64;
        proof {
            assert(d[i - start] == s@[i as int]);
            assert(is_digit(d[i - start]));
            assert(dv as int == c as int - '0' as int);
        }
        if acc > (u64::MAX - dv) / 10 {
            proof {
                let pre = d.subrange(0, i - start);
                let cur = d.subrange(0, i - start + 1);
                assert(cur.drop_last() =~= pre);
                assert(digits_val(cur) == digits_val(pre) * 10 + dv as int);
                assert(digits_val(pre) * 10 + dv > u64::MAX) by (nonlinear_arith)
                    requires
                        digits_val(pre) > (u64::MAX - dv) / 10,
                        digits_val(pre) >= 0,
                        0 <= dv <= 9,
                ;
                if forall|j: int| 0 <= j < d.len() ==> is_digit(#[trigger] d[j]) {
                    lemma_digits_val_prefix(d, i - start + 1);
                    assert(digits_val(d) > u64::MAX);
                }
            }
            return None;
        }
        proof {
            let pre = d.subrange(0, i - start);
            let cur = d.subrange(0, i - start + 1);
            assert(cur.drop_last() =~= pre);
            assert(acc as int * 10 + dv <= u64::MAX) by (nonlinear_arith)
                requires
                    acc as int <= (u64::MAX - dv) / 10,
                    acc as int >= 0,
                    0 <= dv <= 9,
            ;
        }
        acc = acc * 10 + dv;
        i = i + 1;
    }
    proof {
        assert(d.subrange(0, n - start) =~= d);
    }
    if acc == 0 {
        return None;
    }
    Some(acc)
}

/// The identifiers of a run of pieces, in order, unparsable pieces skipped.
pub open spec fn ids_of(ps: Seq<Seq<char>>) -> Seq<u64>
    decreases ps.len(),
{
    if ps.len() == 0 {
        Seq::empty()
    } else {
        let rest = ids_of(ps.drop_last());
        match parse_id_spec(ps.last()) {
            Some(v) => rest.push(v),
            None => rest,
        }
    }
}

/// The identifiers in a comma-separated list, in order; pieces that are not
/// positive 64-bit numbers are skipped.
pub open spec fn parse_id_list_spec(s: Seq<char>) -> Seq<u64> {
    ids_of(parse_list_spec(s))
}

/// Splits a comma-separated list and parses each piece as an identifier,
/// skipping pieces that do not parse.
pub fn parse_id_list(list: &str) -> (r: Vec<u64>)
    requires
        list@.len() < usize::MAX,
    ensures
        r@ == parse_id_list_spec(list@),
{
    let pieces = parse_list(list);
    let n = pieces.len();
    let mut r: Vec<u64> = Vec::new();
    for i in 0..n
        invariant
            n == pieces@.len(),
            piece_views(pieces@) == parse_list_spec(list@),
            r@ == ids_of(piece_views(pieces@).subrange(0, i as int)),
    {
        let ghost pvs = piece_views(pieces@);
        proof {
            assert(pvs.subrange(0, i + 1).drop_last() =~= pvs.subrange(0, i as int));
            assert(pvs.subrange(0, i + 1).last() == pieces@[i as int]@);
        }
        match parse_id(pieces[i]) {
            Some(v) => {
                r.push(v);
            },
            None => {},
        }
    }
    proof {
        assert(piece_views(pieces@).subrange(0, n as int) =~= piece_views(pieces@));
    }
    r
}

} // verus!
