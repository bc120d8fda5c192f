//! Byte-level text handling shared by the parsers: splitting into pieces,
//! lines and fields, and reading decimal numbers.

use vstd::prelude::*;

verus! {

/// The byte sequences held by a vector of byte vectors.
pub open spec fn views(v: Seq<Vec<u8>>) -> Seq<Seq<u8>> {
    Seq::new(v.len(), |i: int| v[i]@)
}

/// Pushing a vector pushes its bytes onto the views.
pub proof fn lemma_views_push(v: Seq<Vec<u8>>, x: Vec<u8>)
    ensures
        views(v.push(x)) == views(v).push(x@),
{
    assert(views(v.push(x)) =~= views(v).push(x@));
}

/// The pieces of `s` between the bytes that occur in `seps`. There is always
/// at least one piece; two separators in a row give an empty piece.
pub open spec fn split_any(s: Seq<u8>, seps: Seq<u8>) -> Seq<Seq<u8>>
    decreases s.len(),
{
    if s.len() == 0 {
        seq![Seq::<u8>::empty()]
    } else {
        let before = split_any(s.drop_last(), seps);
        if seps.contains(s.last()) {
            before.push(Seq::<u8>::empty())
        } else {
            before.drop_last().push(before.last().push(s.last()))
        }
    }
}

/// The pieces of `s` between occurrences of the byte `sep`.
pub open spec fn split(s: Seq<u8>, sep: u8) -> Seq<Seq<u8>> {
    split_any(s, seq![sep])
}

/// `parts` without its empty pieces.
pub open spec fn non_empty(parts: Seq<Seq<u8>>) -> Seq<Seq<u8>>
    decreases parts.len(),
{
    if parts.len() == 0 {
        parts
    } else if parts.last().len() == 0 {
        non_empty(parts.drop_last())
    } else {
        non_empty(parts.drop_last()).push(parts.last())
    }
}

/// The non-empty pieces of `s` between the bytes that occur in `seps`.
pub open spec fn fields(s: Seq<u8>, seps: Seq<u8>) -> Seq<Seq<u8>> {
    non_empty(split_any(s, seps))
}

/// The ASCII whitespace bytes: tab, line feed, vertical tab, form feed,
/// carriage return and space.
pub open spec fn whitespace() -> Seq<u8> {
    seq![9u8, 10u8, 11u8, 12u8, 13u8, 32u8]
}

/// The maximal runs of bytes of `s` that are not ASCII whitespace.
pub open spec fn words(s: Seq<u8>) -> Seq<Seq<u8>> {
    fields(s, whitespace())
}

/// `line` without one trailing carriage return.
pub open spec fn strip_cr(line: Seq<u8>) -> Seq<u8> {
    if line.len() > 0 && line.last() == 13u8 {
        line.drop_last()
    } else {
        line
    }
}

/// The lines of `s`. A line ends at a line feed; a carriage return just
/// before that line feed belongs to the line ending. What follows the last
/// line feed is a line only if it is not empty.
pub open spec fn lines(s: Seq<u8>) -> Seq<Seq<u8>> {
    let parts = split(s, 10u8);
    let n = parts.len() as int;
    Seq::new(
        if parts.last().len() == 0 {
            (n - 1) as nat
        } else {
            n as nat
        },
        |i: int|
            if i < n - 1 {
                strip_cr(parts[i])
            } else {
                parts[i]
            },
    )
}

/// `b` occurs in `seps`.
pub fn is_one_of(b: u8, seps: &[u8]) -> (r: bool)
    ensures
        r == seps@.contains(b),
{
    let mut i: usize = 0;
    while i < seps.len()
        invariant
            i <= seps@.len(),
            forall|k: int| 0 <= k < i ==> seps@[k] != b,
        decreases seps@.len() - i,
    {
        if seps[i] == b {
            return true;
        }
        i += 1;
    }
    false
}

/// Splits `s` at every byte that occurs in `seps`.
pub fn split_at_any(s: &[u8], seps: &[u8]) -> (parts: Vec<Vec<u8>>)
    ensures
        views(parts@) == split_any(s@, seps@),
        parts@.len() >= 1,
{
    let mut parts: Vec<Vec<u8>> = Vec::new();
    let mut cur: Vec<u8> = Vec::new();
    let mut i: usize = 0;
    assert(s@.take(0) =~= Seq::<u8>::empty());
    assert(views(parts@).push(cur@) =~= seq![Seq::<u8>::empty()]);
    while i < s.len()
        invariant
            i <= s@.len(),
            views(parts@).push(cur@) == split_any(s@.take(i as int), seps@),
        decreases s@.len() - i,
    {
        let b: u8 = s[i];
        let ghost before = split_any(s@.take(i as int), seps@);
        proof {
            assert(s@.take(i + 1).drop_last() =~= s@.take(i as int));
            assert(s@.take(i + 1).last() == b);
            assert(before.last() == cur@);
            assert(before.drop_last() =~= views(parts@));
        }
        if is_one_of(b, seps) {
            proof {
                lemma_views_push(parts@, cur);
            }
            parts.push(cur);
            cur = Vec::new();
        } else {
            cur.push(b);
        }
        i += 1;
    }
    proof {
        assert(s@.take(s@.len() as int) =~= s@);
        lemma_views_push(parts@, cur);
    }
    parts.push(cur);
    parts
}

/// Splits `s` at every occurrence of the byte `sep`.
pub fn split_at(s: &[u8], sep: u8) -> (parts: Vec<Vec<u8>>)
    ensures
        views(parts@) == split(s@, sep),
        parts@.len() >= 1,
{
    let mut seps: Vec<u8> = Vec::new();
    seps.push(sep);
    assert(seps@ =~= seq![sep]);
    split_at_any(s, seps.as_slice())
}

/// The pieces of `parts` that are not empty, in order.
pub fn drop_empty(parts: Vec<Vec<u8>>) -> (kept: Vec<Vec<u8>>)
    ensures
        views(kept@) == non_empty(views(parts@)),
{
    let mut kept: Vec<Vec<u8>> = Vec::new();
    let mut parts = parts;
    let ghost all = views(parts@);
    let mut rest: Vec<Vec<u8>> = Vec::new();
    // reverse into `rest` so that pieces can be moved out from the back
    while parts.len() > 0
        invariant
            parts@.len() + rest@.len() == all.len(),
            forall|k: int| 0 <= k < parts@.len() ==> parts@[k]@ == all[k],
            forall|k: int| 0 <= k < rest@.len() ==> (#[trigger] rest@[k])@ == all[all.len() - 1 - k],
        decreases parts@.len(),
    {
        let piece = parts.pop().unwrap();
        rest.push(piece);
    }
    assert(all.take(0) =~= Seq::<Seq<u8>>::empty());
    assert(views(kept@) =~= Seq::<Seq<u8>>::empty());
    let ghost mut done: int = 0;
    while rest.len() > 0
        invariant
            0 <= done <= all.len(),
            rest@.len() + done == all.len(),
            forall|k: int| 0 <= k < rest@.len() ==> (#[trigger] rest@[k])@ == all[all.len() - 1 - k],
            views(kept@) == non_empty(all.take(done)),
        decreases rest@.len(),
    {
        let piece = rest.pop().unwrap();
        proof {
            assert(piece@ == all[done]);
            assert(all.take(done + 1).drop_last() =~= all.take(done));
            assert(all.take(done + 1).last() == all[done]);
            lemma_views_push(kept@, piece);
            done = done + 1;
        }
        if piece.len() > 0 {
            kept.push(piece);
        }
    }
    proof {
        assert(all.take(done) =~= all);
    }
    kept
}

/// The non-empty pieces of `s` between the bytes that occur in `seps`.
pub fn fields_of(s: &[u8], seps: &[u8]) -> (parts: Vec<Vec<u8>>)
    ensures
        views(parts@) == fields(s@, seps@),
{
    drop_empty(split_at_any(s, seps))
}

/// The maximal runs of bytes of `s` that are not ASCII whitespace.
pub fn words_of(s: &[u8]) -> (parts: Vec<Vec<u8>>)
    ensures
        views(parts@) == words(s@),
{
    let mut seps: Vec<u8> = Vec::new();
    seps.push(9);
    seps.push(10);
    seps.push(11);
    seps.push(12);
    seps.push(13);
    seps.push(32);
    assert(seps@ =~= whitespace());
    fields_of(s, seps.as_slice())
}

/// The lines of `s`.
pub fn lines_of(s: &[u8]) -> (out: Vec<Vec<u8>>)
    ensures
        views(out@) == lines(s@),
{
    let mut parts = split_at(s, 10);
    let ghost all = views(parts@);
    let n: usize = parts.len();
    let mut i: usize = 0;
    while i + 1 < n
        invariant
            n == parts@.len(),
            n == all.len(),
            i + 1 <= n,
            forall|k: int| 0 <= k < i ==> (#[trigger] parts@[k])@ == strip_cr(all[k]),
            forall|k: int| i <= k < n ==> (#[trigger] parts@[k])@ == all[k],
        decreases n - i,
    {
        let len: usize = parts[i].len();
        if len > 0 && parts[i][len - 1] == 13 {
            let mut line: Vec<u8> = Vec::new();
            let mut k: usize = 0;
            while k + 1 < len
                invariant
                    i < n,
                    n == parts@.len(),
                    len == parts@[i as int]@.len(),
                    k + 1 <= len,
                    line@ == parts@[i as int]@.take(k as int),
                decreases len - k,
            {
                line.push(parts[i][k]);
                assert(parts@[i as int]@.take(k + 1) =~= parts@[i as int]@.take(k as int).push(parts@[i as int]@[k as int]));
                k += 1;
            }
            assert(line@ =~= strip_cr(all[i as int]));
            parts.set(i, line);
        }
        i += 1;
    }
    if parts[n - 1].len() == 0 {
        parts.pop();
    }
    assert(views(parts@) =~= lines(s@));
    parts
}

/// The number that the decimal digits `s` spell; an empty `s` spells zero.
pub open spec fn digits_value(s: Seq<u8>) -> nat
    decreases s.len(),
{
    if s.len() == 0 {
        0
    } else {
        digits_value(s.drop_last()) * 10 + (s.last() - 48) as nat
    }
}

/// `b` is an ASCII decimal digit.
pub open spec fn is_digit(b: u8) -> bool {
    48 <= b <= 57
}

/// Every byte of `s` is an ASCII decimal digit.
pub open spec fn all_digits(s: Seq<u8>) -> bool {
    forall|i: int| 0 <= i < s.len() ==> is_digit(#[trigger] s[i])
}

/// The natural number that `s` spells: one or more decimal digits, with an
/// optional plus sign in front. `None` for anything else.
pub open spec fn number(s: Seq<u8>) -> Option<nat> {
    let digits = if s.len() > 0 && s[0] == 43u8 {
        s.skip(1)
    } else {
        s
    };
    if digits.len() > 0 && all_digits(digits) {
        Some(digits_value(digits))
    } else {
        None
    }
}

/// The integer that `s` spells: one or more decimal digits, with an optional
/// plus or minus sign in front. `None` for anything else.
pub open spec fn integer(s: Seq<u8>) -> Option<int> {
    if s.len() > 0 && s[0] == 45u8 {
        if s.len() > 1 && all_digits(s.skip(1)) {
            Some(-(digits_value(s.skip(1)) as int))
        } else {
            None
        }
    } else {
        match number(s) {
            Some(v) => Some(v as int),
            None => None,
        }
    }
}

/// Digits spell at least what any of their prefixes spells.
pub proof fn lemma_digits_prefix(s: Seq<u8>, i: int)
    requires
        all_digits(s),
        0 <= i <= s.len(),
    ensures
        digits_value(s.take(i)) <= digits_value(s),
    decreases s.len() - i,
{
    if i < s.len() {
        lemma_digits_prefix(s, i + 1);
        assert(s.take(i + 1).drop_last() =~= s.take(i));
        assert(is_digit(s[i]));
    } else {
        assert(s.take(i) =~= s);
    }
}

/// What the decimal digits `s[from..]` spell, if every byte is a digit, at
/// least one is there, and the value fits in a `u64`.
fn read_digits(s: &[u8], from: usize) -> (r: Option<u64>)
    requires
        from <= s@.len(),
    ensures
        r == if s@.skip(from as int).len() > 0 && all_digits(s@.skip(from as int)) && digits_value(
            s@.skip(from as int),
        ) <= u64::MAX {
            Some(digits_value(s@.skip(from as int)) as u64)
        } else {
            None
        },
{
    let ghost d = s@.skip(from as int);
    if from == s.len() {
        return None;
    }
    let mut acc: u64 = 0;
    let mut i: usize = from;
    assert(d.take(0) =~= Seq::<u8>::empty());
    while i < s.len()
        invariant
            from <= i <= s@.len(),
            d == s@.skip(from as int),
            all_digits(d.take(i - from)),
            acc == digits_value(d.take(i - from)),
        decreases s@.len() - i,
    {
        let b: u8 = s[i];
        assert(d[i - from] == b);
        if b < 48 || b > 57 {
            return None;
        }
        proof {
            assert(d.take(i - from + 1).drop_last() =~= d.take(i - from));
            assert(d.take(i - from + 1).last() == b);
            assert forall|k: int| 0 <= k < d.take(i - from + 1).len() implies is_digit(
                #[trigger] d.take(i - from + 1)[k],
            ) by {
                if k < i - from {
                    assert(d.take(i - from)[k] == d[k]);
                }
            }
        }
        let digit: u64 = (b - 48) as u64;
        let next: Option<u64> = match acc.checked_mul(10) {
            Some(v) => v.checked_add(digit),
            None => None,
        };
        match next {
            Some(v) => {
                acc = v;
            },
            None => {
                proof {
                    if all_digits(d) {
                        lemma_digits_prefix(d, i - from + 1);
                    }
                }
                return None;
            },
        }
        i += 1;
    }
    proof {
        assert(d.take(i - from) =~= d);
    }
    Some(acc)
}

/// Reads a natural number that fits in a `u64`.
pub fn parse_u64(s: &[u8]) -> (r: Option<u64>)
    ensures
        r == match number(s@) {
            Some(v) => if v <= u64::MAX {
                Some(v as u64)
            } else {
                None
            },
            None => None,
        },
{
    if s.len() > 0 && s[0] == 43 {
        read_digits(s, 1)
    } else {
        assert(s@.skip(0) =~= s@);
        read_digits(s, 0)
    }
}

/// Reads a natural number that fits in a `u32`.
pub fn parse_u32(s: &[u8]) -> (r: Option<u32>)
    ensures
        r == match number(s@) {
            Some(v) => if v <= u32::MAX {
                Some(v as u32)
            } else {
                None
            },
            None => None,
        },
{
    match parse_u64(s) {
        Some(v) => if v <= 0xffff_ffff {
            Some(v as u32)
        } else {
            None
        },
        None => None,
    }
}

/// Reads an integer that fits in an `i64`.
pub fn parse_i64(s: &[u8]) -> (r: Option<i64>)
    ensures
        r == match integer(s@) {
            Some(v) => if i64::MIN <= v <= i64::MAX {
                Some(v as i64)
            } else {
                None
            },
            None => None,
        },
{
    if s.len() > 0 && s[0] == 45 {
        match read_digits(s, 1) {
            Some(v) => if v <= 0x7fff_ffff_ffff_ffff {
                Some(-(v as i64))
            } else if v == 0x8000_0000_0000_0000 {
                Some(i64::MIN)
            } else {
                None
            },
            None => None,
        }
    } else {
        match parse_u64(s) {
            Some(v) => if v <= 0x7fff_ffff_ffff_ffff {
                Some(v as i64)
            } else {
                None
            },
            None => None,
        }
    }
}

} // verus!

verus! {

/// `s` begins with the bytes of `w`.
pub fn starts_with(s: &[u8], w: &[u8]) -> (r: bool)
    ensures
        r == w@.is_prefix_of(s@),
{
    if w.len() > s.len() {
        return false;
    }
    let mut i: usize = 0;
    while i < w.len()
        invariant
            i <= w@.len() <= s@.len(),
            forall|k: int| 0 <= k < i ==> w@[k] == s@[k],
        decreases w@.len() - i,
    {
        if w[i] != s[i] {
            assert(w@ != s@.subrange(0, w@.len() as int)) by {
                assert(s@.subrange(0, w@.len() as int)[i as int] == s@[i as int]);
            }
            return false;
        }
        i += 1;
    }
    assert(w@ =~= s@.subrange(0, w@.len() as int));
    true
}

/// `s` ends with the bytes of `w`.
pub fn ends_with(s: &[u8], w: &[u8]) -> (r: bool)
    ensures
        r == w@.is_suffix_of(s@),
{
    if w.len() > s.len() {
        return false;
    }
    let n: usize = s.len();
    let off: usize = n - w.len();
    let mut i: usize = 0;
    while i < w.len()
        invariant
            i <= w@.len() <= s@.len(),
            n == s@.len(),
            off == s@.len() - w@.len(),
            forall|k: int| 0 <= k < i ==> w@[k] == s@[off + k],
        decreases w@.len() - i,
    {
        if w[i] != s[off + i] {
            assert(w@ != s@.subrange(off as int, s@.len() as int)) by {
                assert(s@.subrange(off as int, s@.len() as int)[i as int] == s@[off + i]);
            }
            return false;
        }
        i += 1;
    }
    assert(w@ =~= s@.subrange(off as int, s@.len() as int));
    true
}

/// The bytes of `s` from `from` up to `to`.
pub fn slice_of(s: &[u8], from: usize, to: usize) -> (out: Vec<u8>)
    requires
        from <= to <= s@.len(),
    ensures
        out@ == s@.subrange(from as int, to as int),
{
    let mut out: Vec<u8> = Vec::new();
    let mut i: usize = from;
    while i < to
        invariant
            from <= i <= to <= s@.len(),
            out@ == s@.subrange(from as int, i as int),
        decreases to - i,
    {
        out.push(s[i]);
        assert(s@.subrange(from as int, i + 1) =~= s@.subrange(from as int, i as int).push(s@[i as int]));
        i += 1;
    }
    out
}

} // verus!

verus! {

/// Every word spells a number that fits in a `u64`.
pub open spec fn all_u64(ws: Seq<Seq<u8>>) -> bool {
    forall|i: int| 0 <= i < ws.len() ==> ((#[trigger] number(ws[i])) matches Some(v) && v <= u64::MAX)
}

/// The numbers that the words spell.
pub open spec fn u64s(ws: Seq<Seq<u8>>) -> Seq<u64> {
    Seq::new(ws.len(), |i: int| number(ws[i]).unwrap() as u64)
}

/// Reads every word as a number. `None` when one of them is no number that
/// fits in a `u64`.
pub fn read_u64s(ws: &Vec<Vec<u8>>) -> (r: Option<Vec<u64>>)
    ensures
        r is Some <==> all_u64(views(ws@)),
        r matches Some(v) ==> v@ == u64s(views(ws@)),
{
    let ghost all = views(ws@);
    let mut out: Vec<u64> = Vec::new();
    let mut i: usize = 0;
    while i < ws.len()
        invariant
            i <= ws@.len(),
            all == views(ws@),
            out@.len() == i,
            forall|k: int| 0 <= k < i ==> ((#[trigger] number(all[k])) matches Some(v) && v <= u64::MAX),
            forall|k: int| 0 <= k < i ==> #[trigger] out@[k] == number(all[k]).unwrap() as u64,
        decreases ws@.len() - i,
    {
        assert(all[i as int] == ws@[i as int]@);
        match parse_u64(ws[i].as_slice()) {
            Some(n) => {
                out.push(n);
            },
            None => {
                assert(!(number(all[i as int]) matches Some(v) && v <= u64::MAX));
                return None;
            },
        }
        i += 1;
    }
    assert(out@ =~= u64s(all));
    Some(out)
}

/// The pieces joined end to end.
pub open spec fn joined(parts: Seq<Seq<u8>>) -> Seq<u8>
    decreases parts.len(),
{
    if parts.len() == 0 {
        Seq::empty()
    } else {
        joined(parts.drop_last()) + parts.last()
    }
}

/// Joins the pieces end to end.
pub fn join(parts: &Vec<Vec<u8>>) -> (out: Vec<u8>)
    ensures
        out@ == joined(views(parts@)),
{
    let ghost all = views(parts@);
    let mut out: Vec<u8> = Vec::new();
    let mut i: usize = 0;
    assert(all.take(0) =~= Seq::<Seq<u8>>::empty());
    while i < parts.len()
        invariant
            i <= parts@.len(),
            all == views(parts@),
            out@ == joined(all.take(i as int)),
        decreases parts@.len() - i,
    {
        let piece = &parts[i];
        let ghost before = out@;
        let mut k: usize = 0;
        while k < piece.len()
            invariant
                k <= piece@.len(),
                out@ == before + piece@.take(k as int),
            decreases piece@.len() - k,
        {
            out.push(piece[k]);
            assert(before + piece@.take(k + 1) =~= (before + piece@.take(k as int)).push(piece@[k as int]));
            k += 1;
        }
        proof {
            assert(piece@.take(k as int) =~= piece@);
            assert(all.take(i + 1).drop_last() =~= all.take(i as int));
            assert(all.take(i + 1).last() == piece@);
        }
        i += 1;
    }
    assert(all.take(i as int) =~= all);
    out
}

} // verus!

verus! {

/// `a` and `b` hold the same bytes.
pub fn same_bytes(a: &[u8], b: &[u8]) -> (r: bool)
    ensures
        r == (a@ == b@),
{
    if a.len() != b.len() {
        return false;
    }
    let mut i: usize = 0;
    while i < a.len()
        invariant
            i <= a@.len(),
            a@.len() == b@.len(),
            forall|k: int| 0 <= k < i ==> a@[k] == b@[k],
        decreases a@.len() - i,
    {
        if a[i] != b[i] {
            return false;
        }
        i += 1;
    }
    assert(a@ =~= b@);
    true
}

/// `s` without the whitespace at its start.
pub open spec fn trim_start(s: Seq<u8>) -> Seq<u8>
    decreases s.len(),
{
    if s.len() > 0 && whitespace().contains(s[0]) {
        trim_start(s.drop_first())
    } else {
        s
    }
}

/// `s` without the whitespace at its end.
pub open spec fn trim_end(s: Seq<u8>) -> Seq<u8>
    decreases s.len(),
{
    if s.len() > 0 && whitespace().contains(s.last()) {
        trim_end(s.drop_last())
    } else {
        s
    }
}

/// `s` without the ASCII whitespace at its start and at its end.
pub open spec fn trim(s: Seq<u8>) -> Seq<u8> {
    trim_end(trim_start(s))
}

/// `b` is an ASCII whitespace byte.
pub fn is_space(b: u8) -> (r: bool)
    ensures
        r == whitespace().contains(b),
{
    let r = b == 9 || b == 10 || b == 11 || b == 12 || b == 13 || b == 32;
    proof {
        let w = whitespace();
        assert(w[0] == 9 && w[1] == 10 && w[2] == 11 && w[3] == 12 && w[4] == 13 && w[5] == 32);
    }
    r
}

/// `s` without the ASCII whitespace at its start and at its end.
pub fn trimmed(s: &[u8]) -> (out: Vec<u8>)
    ensures
        out@ == trim(s@),
{
    let mut from: usize = 0;
    assert(s@.skip(0) =~= s@);
    while from < s.len() && is_space(s[from])
        invariant
            from <= s@.len(),
            trim_start(s@) == trim_start(s@.skip(from as int)),
        decreases s@.len() - from,
    {
        assert(s@.skip(from as int).drop_first() =~= s@.skip(from + 1));
        from += 1;
    }
    let ghost rest = s@.skip(from as int);
    assert(trim_start(s@) == rest);
    let mut to: usize = s.len();
    assert(rest.take(rest.len() as int) =~= rest);
    while to > from && is_space(s[to - 1])
        invariant
            from <= to <= s@.len(),
            rest == s@.skip(from as int),
            trim_end(rest) == trim_end(rest.take(to - from)),
        decreases to,
    {
        assert(rest.take(to - from).last() == s@[to - 1]);
        assert(rest.take(to - from).drop_last() =~= rest.take(to - from - 1));
        to -= 1;
    }
    proof {
        let kept = rest.take(to - from);
        if to > from {
            assert(kept.last() == s@[to - 1]);
        }
        assert(trim_end(kept) == kept);
        assert(kept =~= s@.subrange(from as int, to as int));
    }
    slice_of(s, from, to)
}

} // verus!

verus! {

/// A single byte that spells a number spells one below ten.
pub proof fn lemma_one_byte_number(s: Seq<u8>)
    requires
        s.len() == 1,
    ensures
        number(s) matches Some(v) ==> v <= 9,
{
    reveal_with_fuel(digits_value, 2);
    if s[0] != 43u8 {
        if all_digits(s) {
            assert(is_digit(s[0]));
            assert(s.drop_last().len() == 0);
            assert(s.last() == s[0]);
        }
    }
}

} // verus!

verus! {

/// The index of the first empty line from `from` on, or the number of
/// lines when none is empty.
pub open spec fn block_end(ls: Seq<Seq<u8>>, from: int) -> int
    decreases ls.len() - from,
{
    if from >= ls.len() {
        ls.len() as int
    } else if ls[from].len() == 0 {
        from
    } else {
        block_end(ls, from + 1)
    }
}

/// The end of a block is behind its start and within the text, and no line
/// of the block is empty.
pub proof fn lemma_block_end(ls: Seq<Seq<u8>>, from: int, at: int)
    requires
        0 <= from <= at <= ls.len(),
        forall|i: int| from <= i < at ==> (#[trigger] ls[i]).len() > 0,
    ensures
        block_end(ls, from) == block_end(ls, at),
        at <= block_end(ls, at) <= ls.len(),
    decreases at - from, ls.len() - at,
{
    if from < at {
        lemma_block_end(ls, from + 1, at);
    } else if at < ls.len() && ls[at].len() > 0 {
        lemma_block_end(ls, at + 1, at + 1);
    }
}

} // verus!

verus! {

/// Index of the first byte `b` of `s`, or the length of `s` when it holds
/// none.
pub open spec fn first_index(s: Seq<u8>, b: u8) -> int
    decreases s.len(),
{
    if s.len() == 0 {
        0
    } else if s[0] == b {
        0
    } else {
        1 + first_index(s.drop_first(), b)
    }
}

/// The first index is the one before which no `b` stands and at which one
/// does, or the length.
pub proof fn lemma_first_index(s: Seq<u8>, b: u8, k: int)
    requires
        0 <= k <= s.len(),
        forall|j: int| 0 <= j < k ==> s[j] != b,
        k < s.len() ==> s[k] == b,
    ensures
        first_index(s, b) == k,
    decreases s.len(),
{
    if s.len() > 0 && k > 0 {
        let rest = s.drop_first();
        assert forall|j: int| 0 <= j < k - 1 implies rest[j] != b by {
            assert(rest[j] == s[j + 1]);
        }
        lemma_first_index(rest, b, k - 1);
    }
}

/// Index of the first byte `b` of `s`, or the length of `s`.
pub fn find_byte(s: &[u8], b: u8) -> (i: usize)
    ensures
        i == first_index(s@, b),
        i <= s@.len(),
{
    let mut i: usize = 0;
    while i < s.len() && s[i] != b
        invariant
            i <= s@.len(),
            forall|j: int| 0 <= j < i ==> s@[j] != b,
        decreases s@.len() - i,
    {
        i += 1;
    }
    proof {
        lemma_first_index(s@, b, i as int);
    }
    i
}

} // verus!
