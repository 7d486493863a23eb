//! Byte-level helpers shared by the request parser and the response builder.
use vstd::prelude::*;

verus! {

/// The bytes of an ASCII string.
pub open spec fn ascii(s: &str) -> Seq<u8> {
    s@.map_values(|c: char| c as u8)
}

/// Carriage return followed by line feed.
pub open spec fn crlf() -> Seq<u8> {
    seq![13u8, 10u8]
}

/// `e` is the first line feed of `s` at or after `from`.
pub open spec fn is_line_end(s: Seq<u8>, from: int, e: int) -> bool {
    &&& 0 <= from <= e < s.len()
    &&& s[e] == 10u8
    &&& forall|j: int| from <= j < e ==> s[j] != 10u8
}

pub open spec fn has_line(s: Seq<u8>, from: int) -> bool {
    exists|e: int| is_line_end(s, from, e)
}

/// Index of the line feed that ends the line starting at `from`.
pub open spec fn line_end(s: Seq<u8>, from: int) -> int {
    choose|e: int| is_line_end(s, from, e)
}

pub proof fn lemma_line_end_unique(s: Seq<u8>, from: int, e: int)
    requires
        is_line_end(s, from, e),
    ensures
        has_line(s, from),
        line_end(s, from) == e,
{
    let c = line_end(s, from);
    assert(is_line_end(s, from, c));
    if c < e {
        assert(s[c] != 10u8);
    } else if e < c {
        assert(s[e] != 10u8);
    }
}

/// A line without its terminator: the final line feed, then a carriage return
/// before it, are removed.
pub open spec fn strip_eol(line: Seq<u8>) -> Seq<u8> {
    let a = if line.len() > 0 && line.last() == 10u8 { line.drop_last() } else { line };
    if a.len() > 0 && a.last() == 13u8 { a.drop_last() } else { a }
}

/// `i` is the first position of `": "` in `t`.
pub open spec fn is_sep_at(t: Seq<u8>, i: int) -> bool {
    &&& 0 <= i && i + 1 < t.len()
    &&& t[i] == 58u8 && t[i + 1] == 32u8
    &&& forall|j: int| 0 <= j < i ==> !(#[trigger] t[j] == 58u8 && t[j + 1] == 32u8)
}

pub open spec fn has_sep(t: Seq<u8>) -> bool {
    exists|i: int| is_sep_at(t, i)
}

pub open spec fn sep_pos(t: Seq<u8>) -> int {
    choose|i: int| is_sep_at(t, i)
}

/// No `": "` occurs in `t`.
pub open spec fn no_sep(t: Seq<u8>) -> bool {
    forall|j: int| 0 <= j && j + 1 < t.len() ==> !(#[trigger] t[j] == 58u8 && t[j + 1] == 32u8)
}

pub proof fn lemma_sep_unique(t: Seq<u8>, i: int)
    requires
        is_sep_at(t, i),
    ensures
        has_sep(t),
        sep_pos(t) == i,
{
    let c = sep_pos(t);
    assert(is_sep_at(t, c));
}

/// `s` split at every occurrence of `sep`; always at least one piece.
pub open spec fn split_bytes(s: Seq<u8>, sep: u8) -> Seq<Seq<u8>>
    decreases s.len(),
{
    if s.len() == 0 {
        seq![Seq::<u8>::empty()]
    } else {
        let r = split_bytes(s.drop_last(), sep);
        if s.last() == sep {
            r.push(Seq::<u8>::empty())
        } else {
            r.update(r.len() - 1, r.last().push(s.last()))
        }
    }
}

pub proof fn lemma_split_nonempty(s: Seq<u8>, sep: u8)
    ensures
        split_bytes(s, sep).len() >= 1,
    decreases s.len(),
{
    if s.len() > 0 {
        lemma_split_nonempty(s.drop_last(), sep);
    }
}

/// Splitting at a separator splits the two sides independently.
pub proof fn lemma_split_concat(x: Seq<u8>, y: Seq<u8>, sep: u8)
    ensures
        split_bytes(x.push(sep) + y, sep) == split_bytes(x, sep) + split_bytes(y, sep),
    decreases y.len(),
{
    let s = x.push(sep) + y;
    if y.len() == 0 {
        assert(s =~= x.push(sep));
        assert(s.drop_last() =~= x);
        assert(split_bytes(s, sep) =~= split_bytes(x, sep) + split_bytes(y, sep));
    } else {
        assert(s.drop_last() =~= x.push(sep) + y.drop_last());
        lemma_split_concat(x, y.drop_last(), sep);
        lemma_split_nonempty(y.drop_last(), sep);
        assert(split_bytes(s, sep) =~= split_bytes(x, sep) + split_bytes(y, sep));
    }
}

/// A sequence without the separator is a single piece.
pub proof fn lemma_split_none(x: Seq<u8>, sep: u8)
    requires
        forall|i: int| 0 <= i < x.len() ==> x[i] != sep,
    ensures
        split_bytes(x, sep) == seq![x],
    decreases x.len(),
{
    if x.len() > 0 {
        lemma_split_none(x.drop_last(), sep);
        assert(x.drop_last().push(x.last()) =~= x);
        assert(split_bytes(x, sep) =~= seq![x]);
    } else {
        assert(x =~= Seq::<u8>::empty());
    }
}

pub open spec fn deep(v: Seq<Vec<u8>>) -> Seq<Seq<u8>> {
    v.map_values(|x: Vec<u8>| x@)
}

/// The bytes of the literal `s`, which must be ASCII.
pub fn ascii_bytes(s: &str) -> (r: &[u8])
    requires
        vstd::string::is_ascii(s),
    ensures
        r@ == ascii(s),
{
    proof {
        vstd::string::is_ascii_spec_bytes(s);
    }
    let b = s.as_bytes();
    assert(b@ =~= ascii(s));
    b
}

/// The bytes of the ASCII literal `s`, owned.
pub fn ascii_vec(s: &str) -> (r: Vec<u8>)
    requires
        vstd::string::is_ascii(s),
    ensures
        r@ == ascii(s),
{
    let mut r: Vec<u8> = Vec::new();
    append_bytes(&mut r, ascii_bytes(s));
    assert(r@ =~= ascii(s));
    r
}

pub fn bytes_eq(a: &[u8], b: &[u8]) -> (r: bool)
    ensures
        r == (a@ == b@),
{
    if a.len() != b.len() {
        return false;
    }
    let mut i: usize = 0;
    while i < a.len()
        invariant
            a@.len() == b@.len(),
            i <= a@.len(),
            forall|j: int| 0 <= j < i ==> a@[j] == b@[j],
        decreases a@.len() - i,
    {
        if a[i] != b[i] {
            return false;
        }
        i = i + 1;
    }
    assert(a@ =~= b@);
    true
}

pub fn starts_with(s: &[u8], prefix: &[u8]) -> (r: bool)
    ensures
        r == (prefix@.len() <= s@.len() && s@.subrange(0, prefix@.len() as int) == prefix@),
{
    if prefix.len() > s.len() {
        return false;
    }
    let mut i: usize = 0;
    while i < prefix.len()
        invariant
            prefix@.len() <= s@.len(),
            i <= prefix@.len(),
            forall|j: int| 0 <= j < i ==> s@[j] == prefix@[j],
        decreases prefix@.len() - i,
    {
        if s[i] != prefix[i] {
            assert(s@.subrange(0, prefix@.len() as int)[i as int] != prefix@[i as int]);
            return false;
        }
        i = i + 1;
    }
    assert(s@.subrange(0, prefix@.len() as int) =~= prefix@);
    true
}

pub fn copy_range(s: &[u8], lo: usize, hi: usize) -> (r: Vec<u8>)
    requires
        lo <= hi <= s@.len(),
    ensures
        r@ == s@.subrange(lo as int, hi as int),
{
    let mut r: Vec<u8> = Vec::new();
    let mut i: usize = lo;
    while i < hi
        invariant
            lo <= i <= hi <= s@.len(),
            r@ == s@.subrange(lo as int, i as int),
        decreases hi - i,
    {
        r.push(s[i]);
        i = i + 1;
        assert(r@ =~= s@.subrange(lo as int, i as int));
    }
    r
}

pub fn append_bytes(out: &mut Vec<u8>, s: &[u8])
    ensures
        final(out)@ == old(out)@ + s@,
{
    let mut i: usize = 0;
    while i < s.len()
        invariant
            i <= s@.len(),
            out@ == old(out)@ + s@.subrange(0, i as int),
        decreases s@.len() - i,
    {
        out.push(s[i]);
        i = i + 1;
        assert(out@ =~= old(out)@ + s@.subrange(0, i as int));
    }
    assert(s@.subrange(0, s@.len() as int) =~= s@);
}

/// Finds the line feed that ends the line starting at `from`.
pub fn find_line_end(s: &[u8], from: usize) -> (r: Option<usize>)
    requires
        from <= s@.len(),
    ensures
        r.is_some() == has_line(s@, from as int),
        r matches Some(e) ==> e == line_end(s@, from as int),
{
    let mut i: usize = from;
    while i < s.len()
        invariant
            from <= i <= s@.len(),
            forall|j: int| from <= j < i ==> s@[j] != 10u8,
        decreases s@.len() - i,
    {
        if s[i] == 10u8 {
            proof {
                lemma_line_end_unique(s@, from as int, i as int);
            }
            return Some(i);
        }
        i = i + 1;
    }
    assert(!has_line(s@, from as int)) by {
        if has_line(s@, from as int) {
            let e = line_end(s@, from as int);
            assert(s@[e] != 10u8);
        }
    }
    None
}

/// Finds the first `": "` in `t`.
pub fn find_sep(t: &[u8]) -> (r: Option<usize>)
    ensures
        r.is_some() == has_sep(t@),
        r matches Some(i) ==> i == sep_pos(t@),
{
    if t.len() < 2 {
        return None;
    }
    let mut i: usize = 0;
    while i < t.len() - 1
        invariant
            t@.len() >= 2,
            forall|j: int| 0 <= j < i && j + 1 < t@.len() ==> !(#[trigger] t@[j] == 58u8 && t@[j + 1] == 32u8),
        decreases t@.len() - i,
    {
        if t[i] == 58u8 && t[i + 1] == 32u8 {
            proof {
                lemma_sep_unique(t@, i as int);
            }
            return Some(i);
        }
        i = i + 1;
    }
    assert(!has_sep(t@)) by {
        if has_sep(t@) {
            let c = sep_pos(t@);
            assert(!(t@[c] == 58u8 && t@[c + 1] == 32u8));
        }
    }
    None
}

/// The line `s[from..=end]` without its terminator.
pub fn stripped_line(s: &[u8], from: usize, end: usize) -> (r: Vec<u8>)
    requires
        from <= end < s@.len(),
    ensures
        r@ == strip_eol(s@.subrange(from as int, end as int + 1)),
{
    let line = Ghost(s@.subrange(from as int, end as int + 1));
    let n = s.len();
    let mut hi: usize = end + 1;
    if s[end] == 10u8 {
        hi = end;
    }
    if hi > from && s[hi - 1] == 13u8 {
        hi = hi - 1;
    }
    let r = copy_range(s, from, hi);
    proof {
        let a = if line@.len() > 0 && line@.last() == 10u8 { line@.drop_last() } else { line@ };
        if s@[end as int] == 10u8 {
            assert(a =~= s@.subrange(from as int, end as int));
        } else {
            assert(a =~= s@.subrange(from as int, end as int + 1));
        }
        assert(r@ =~= strip_eol(line@));
    }
    r
}

/// `s` split at every `sep`.
pub fn split_on(s: &[u8], sep: u8) -> (r: Vec<Vec<u8>>)
    ensures
        deep(r@) == split_bytes(s@, sep),
{
    let mut done: Vec<Vec<u8>> = Vec::new();
    let mut cur: Vec<u8> = Vec::new();
    let mut i: usize = 0;
    while i < s.len()
        invariant
            i <= s@.len(),
            deep(done@).push(cur@) == split_bytes(s@.subrange(0, i as int), sep),
        decreases s@.len() - i,
    {
        let ghost before = s@.subrange(0, i as int);
        let ghost after = s@.subrange(0, i as int + 1);
        assert(after.drop_last() =~= before);
        if s[i] == sep {
            let piece = cur;
            cur = Vec::new();
            done.push(piece);
            assert(deep(done@).push(cur@) =~= split_bytes(after, sep));
        } else {
            cur.push(s[i]);
            assert(deep(done@).push(cur@) =~= split_bytes(after, sep));
        }
        i = i + 1;
    }
    assert(s@.subrange(0, s@.len() as int) =~= s@);
    done.push(cur);
    assert(deep(done@) =~= split_bytes(s@, sep));
    done
}

/// Decimal digits of `n`, most significant first, without leading zeros.
pub open spec fn decimal(n: nat) -> Seq<u8>
    decreases n,
{
    if n < 10 {
        seq![(48 + n) as u8]
    } else {
        decimal(n / 10).push((48 + n % 10) as u8)
    }
}

/// Appends the decimal digits of `n` to `out`.
pub fn push_decimal(out: &mut Vec<u8>, n: usize)
    ensures
        final(out)@ == old(out)@ + decimal(n as nat),
    decreases n,
{
    if n < 10 {
        out.push(48u8 + n as u8);
        assert(final(out)@ =~= old(out)@ + decimal(n as nat)) by {
            assert(out@ =~= old(out)@ + decimal(n as nat));
        }
    } else {
        push_decimal(out, n / 10);
        out.push(48u8 + (n % 10) as u8);
        assert(out@ =~= old(out)@ + decimal(n as nat));
    }
}

pub open spec fn is_digit(b: u8) -> bool {
    48u8 <= b <= 57u8
}

/// All bytes of `s` are ASCII digits, and there is at least one.
pub open spec fn is_decimal(s: Seq<u8>) -> bool {
    s.len() > 0 && forall|i: int| 0 <= i < s.len() ==> is_digit(s[i])
}

/// The number that the digits of `s` spell.
pub open spec fn digits_value(s: Seq<u8>) -> nat
    decreases s.len(),
{
    if s.len() == 0 {
        0
    } else {
        digits_value(s.drop_last()) * 10 + (s.last() - 48) as nat
    }
}

proof fn lemma_value_prefix(s: Seq<u8>, i: int)
    requires
        0 <= i <= s.len(),
        forall|k: int| 0 <= k < s.len() ==> is_digit(s[k]),
    ensures
        digits_value(s.subrange(0, i)) <= digits_value(s),
    decreases s.len() - i,
{
    if i < s.len() {
        lemma_value_prefix(s, i + 1);
        let p = s.subrange(0, i + 1);
        assert(p.drop_last() =~= s.subrange(0, i));
    } else {
        assert(s.subrange(0, i) =~= s);
    }
}

/// Reads `s` as an unsigned decimal number that fits a `usize`.
pub fn parse_decimal(s: &[u8]) -> (r: Option<usize>)
    ensures
        r.is_some() == (is_decimal(s@) && digits_value(s@) <= usize::MAX),
        r matches Some(n) ==> n == digits_value(s@),
{
    if s.len() == 0 {
        return None;
    }
    let mut acc: usize = 0;
    let mut i: usize = 0;
    while i < s.len()
        invariant
            i <= s@.len(),
            acc == digits_value(s@.subrange(0, i as int)),
            forall|k: int| 0 <= k < i ==> is_digit(s@[k]),
        decreases s@.len() - i,
    {
        let ghost p = s@.subrange(0, i as int + 1);
        assert(p.drop_last() =~= s@.subrange(0, i as int));
        if s[i] < 48u8 || s[i] > 57u8 {
            return None;
        }
        let d = (s[i] - 48u8) as usize;
        if acc > (usize::MAX - d) / 10 {
            proof {
                assert(digits_value(p) > usize::MAX) by (nonlinear_arith)
                    requires
                        acc > (usize::MAX - d) / 10,
                        digits_value(p) == acc * 10 + d,
                        d <= 9,
                ;
                if is_decimal(s@) {
                    lemma_value_prefix(s@, i as int + 1);
                }
            }
            return None;
        }
        assert(acc * 10 + d <= usize::MAX) by (nonlinear_arith)
            requires
                acc <= (usize::MAX - d) / 10,
                d <= 9,
        ;
        acc = acc * 10 + d;
        i = i + 1;
    }
    assert(s@.subrange(0, s@.len() as int) =~= s@);
    Some(acc)
}

} // verus!
