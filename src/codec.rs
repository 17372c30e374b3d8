use vstd::prelude::*;

verus! {

/// Eight bytes, most significant first.
pub open spec fn be64(n: u64) -> Seq<u8> {
    seq![
        (n >> 56u64) as u8,
        (n >> 48u64) as u8,
        (n >> 40u64) as u8,
        (n >> 32u64) as u8,
        (n >> 24u64) as u8,
        (n >> 16u64) as u8,
        (n >> 8u64) as u8,
        n as u8,
    ]
}

/// The number that eight bytes, most significant first, stand for.
pub open spec fn from_be64(s: Seq<u8>) -> u64 {
    (s[0] as u64) << 56u64 | (s[1] as u64) << 48u64 | (s[2] as u64) << 40u64 | (s[3] as u64)
        << 32u64 | (s[4] as u64) << 24u64 | (s[5] as u64) << 16u64 | (s[6] as u64) << 8u64 | (
    s[7] as u64)
}

/// A byte string preceded by its length.
pub open spec fn field(b: Seq<u8>) -> Seq<u8> {
    be64(b.len() as u64) + b
}

/// An absent value is one zero byte; a present one is a one byte and its field.
pub open spec fn opt_field(o: Option<Seq<u8>>) -> Seq<u8> {
    match o {
        None => seq![0u8],
        Some(b) => seq![1u8] + field(b),
    }
}

pub open spec fn parse_u64(s: Seq<u8>, pos: int) -> Option<(u64, int)> {
    if 0 <= pos && pos + 8 <= s.len() {
        Some((from_be64(s.subrange(pos, pos + 8)), pos + 8))
    } else {
        None
    }
}

pub open spec fn parse_field(s: Seq<u8>, pos: int) -> Option<(Seq<u8>, int)> {
    match parse_u64(s, pos) {
        Some((n, p)) => if p + n <= s.len() {
            Some((s.subrange(p, p + n), p + n))
        } else {
            None
        },
        None => None,
    }
}

pub open spec fn parse_opt_field(s: Seq<u8>, pos: int) -> Option<(Option<Seq<u8>>, int)> {
    if 0 <= pos < s.len() && s[pos] == 0 {
        Some((None, pos + 1))
    } else if 0 <= pos < s.len() && s[pos] == 1 {
        match parse_field(s, pos + 1) {
            Some((b, p)) => Some((Some(b), p)),
            None => None,
        }
    } else {
        None
    }
}

/// A byte string short enough for its length to be written in eight bytes.
pub open spec fn fits(b: Seq<u8>) -> bool {
    b.len() <= u64::MAX
}

pub open spec fn opt_fits(o: Option<Seq<u8>>) -> bool {
    match o {
        None => true,
        Some(b) => fits(b),
    }
}

/// A concatenation that sits at `pos` in `s` splits into its two parts there.
pub proof fn lemma_peel(s: Seq<u8>, pos: int, x: Seq<u8>, y: Seq<u8>)
    requires
        0 <= pos,
        pos + x.len() + y.len() <= s.len(),
        s.subrange(pos, pos + x.len() + y.len()) == x + y,
    ensures
        s.subrange(pos, pos + x.len()) == x,
        s.subrange(pos + x.len(), pos + x.len() + y.len()) == y,
{
    assert(s.subrange(pos, pos + x.len()) =~= (x + y).subrange(0, x.len() as int));
    assert(s.subrange(pos + x.len(), pos + x.len() + y.len()) =~= (x + y).subrange(
        x.len() as int,
        (x.len() + y.len()) as int,
    ));
}

pub proof fn lemma_be64_round_trip(n: u64)
    ensures
        from_be64(be64(n)) == n,
{
    let b0 = (n >> 56u64) as u8;
    let b1 = (n >> 48u64) as u8;
    let b2 = (n >> 40u64) as u8;
    let b3 = (n >> 32u64) as u8;
    let b4 = (n >> 24u64) as u8;
    let b5 = (n >> 16u64) as u8;
    let b6 = (n >> 8u64) as u8;
    let b7 = n as u8;
    assert((b0 as u64) << 56u64 | (b1 as u64) << 48u64 | (b2 as u64) << 40u64 | (b3 as u64)
        << 32u64 | (b4 as u64) << 24u64 | (b5 as u64) << 16u64 | (b6 as u64) << 8u64 | (b7 as u64)
        == n) by (bit_vector)
        requires
            b0 == (n >> 56u64) as u8,
            b1 == (n >> 48u64) as u8,
            b2 == (n >> 40u64) as u8,
            b3 == (n >> 32u64) as u8,
            b4 == (n >> 24u64) as u8,
            b5 == (n >> 16u64) as u8,
            b6 == (n >> 8u64) as u8,
            b7 == n as u8,
    ;
}

pub proof fn lemma_parse_u64(s: Seq<u8>, pos: int, n: u64)
    requires
        0 <= pos,
        pos + 8 <= s.len(),
        s.subrange(pos, pos + 8) == be64(n),
    ensures
        parse_u64(s, pos) == Some((n, pos + 8)),
{
    lemma_be64_round_trip(n);
}

pub proof fn lemma_parse_field(s: Seq<u8>, pos: int, b: Seq<u8>)
    requires
        fits(b),
        0 <= pos,
        pos + field(b).len() <= s.len(),
        s.subrange(pos, pos + field(b).len()) == field(b),
    ensures
        field(b).len() == 8 + b.len(),
        parse_field(s, pos) == Some((b, pos + 8 + b.len())),
{
    let f = field(b);
    assert(s.subrange(pos, pos + 8) =~= f.subrange(0, 8));
    assert(f.subrange(0, 8) =~= be64(b.len() as u64));
    lemma_parse_u64(s, pos, b.len() as u64);
    assert(s.subrange(pos + 8, pos + 8 + b.len()) =~= f.subrange(8, 8 + b.len() as int));
    assert(f.subrange(8, 8 + b.len() as int) =~= b);
}

pub proof fn lemma_parse_opt_field(s: Seq<u8>, pos: int, o: Option<Seq<u8>>)
    requires
        opt_fits(o),
        0 <= pos,
        pos + opt_field(o).len() <= s.len(),
        s.subrange(pos, pos + opt_field(o).len()) == opt_field(o),
    ensures
        parse_opt_field(s, pos) == Some((o, pos + opt_field(o).len())),
{
    let f = opt_field(o);
    assert(s[pos] == s.subrange(pos, pos + f.len())[0]);
    match o {
        None => {},
        Some(b) => {
            assert(s.subrange(pos + 1, pos + 1 + field(b).len()) =~= f.subrange(
                1,
                f.len() as int,
            ));
            assert(f.subrange(1, f.len() as int) =~= field(b));
            lemma_parse_field(s, pos + 1, b);
        },
    }
}

/// Appends `n` as eight bytes, most significant first.
pub fn push_u64(out: &mut Vec<u8>, n: u64)
    ensures
        final(out)@ == old(out)@ + be64(n),
{
    out.push((n >> 56u64) as u8);
    out.push((n >> 48u64) as u8);
    out.push((n >> 40u64) as u8);
    out.push((n >> 32u64) as u8);
    out.push((n >> 24u64) as u8);
    out.push((n >> 16u64) as u8);
    out.push((n >> 8u64) as u8);
    out.push(n as u8);
    assert(final(out)@ =~= old(out)@ + be64(n));
}

/// Appends the bytes of `b`.
pub fn push_bytes(out: &mut Vec<u8>, b: &[u8])
    ensures
        final(out)@ == old(out)@ + b@,
{
    let ghost start = out@;
    let mut i: usize = 0;
    while i < b.len()
        invariant
            i <= b@.len(),
            out@ == start + b@.subrange(0, i as int),
        decreases b@.len() - i,
    {
        out.push(b[i]);
        i = i + 1;
        assert(out@ =~= start + b@.subrange(0, i as int));
    }
    assert(b@.subrange(0, i as int) =~= b@);
}

/// A new vector holding the bytes of `b`.
pub fn bytes_of(b: &[u8]) -> (r: Vec<u8>)
    ensures
        r@ == b@,
{
    let mut out: Vec<u8> = Vec::new();
    push_bytes(&mut out, b);
    assert(out@ =~= b@);
    out
}

/// Appends `b` preceded by its length.
pub fn push_field(out: &mut Vec<u8>, b: &[u8])
    ensures
        final(out)@ == old(out)@ + field(b@),
        fits(b@),
{
    let ghost start = out@;
    push_u64(out, b.len() as u64);
    push_bytes(out, b);
    assert(out@ =~= start + field(b@));
}

/// Appends an optional byte string: a marker byte, then the field if present.
pub fn push_opt_field(out: &mut Vec<u8>, o: &Option<Vec<u8>>)
    ensures
        final(out)@ == old(out)@ + opt_field(opt_view(o)),
        opt_fits(opt_view(o)),
{
    let ghost start = out@;
    match o {
        None => {
            out.push(0u8);
            assert(out@ =~= start + opt_field(opt_view(o)));
        },
        Some(b) => {
            out.push(1u8);
            push_field(out, b.as_slice());
            assert(out@ =~= start + opt_field(opt_view(o)));
        },
    }
}

pub open spec fn opt_view(o: &Option<Vec<u8>>) -> Option<Seq<u8>> {
    match o {
        None => None,
        Some(b) => Some(b@),
    }
}

/// Reads eight bytes at `pos` as a number.
pub fn read_u64(s: &[u8], pos: usize) -> (r: Option<(u64, usize)>)
    ensures
        match r {
            Some((n, p)) => parse_u64(s@, pos as int) == Some((n, p as int)),
            None => parse_u64(s@, pos as int) is None,
        },
{
    if pos > s.len() || s.len() - pos < 8 {
        return None;
    }
    let n: u64 = (s[pos] as u64) << 56u64 | (s[pos + 1] as u64) << 48u64 | (s[pos + 2] as u64)
        << 40u64 | (s[pos + 3] as u64) << 32u64 | (s[pos + 4] as u64) << 24u64 | (s[pos
        + 5] as u64) << 16u64 | (s[pos + 6] as u64) << 8u64 | (s[pos + 7] as u64);
    let ghost sub = s@.subrange(pos as int, pos + 8);
    assert(sub[0] == s@[pos as int] && sub[1] == s@[pos + 1] && sub[2] == s@[pos + 2] && sub[3]
        == s@[pos + 3] && sub[4] == s@[pos + 4] && sub[5] == s@[pos + 5] && sub[6] == s@[pos + 6]
        && sub[7] == s@[pos + 7]);
    Some((n, pos + 8))
}

/// Reads a length-prefixed byte string at `pos`.
pub fn read_field(s: &[u8], pos: usize) -> (r: Option<(Vec<u8>, usize)>)
    ensures
        match r {
            Some((b, p)) => parse_field(s@, pos as int) == Some((b@, p as int)),
            None => parse_field(s@, pos as int) is None,
        },
{
    match read_u64(s, pos) {
        None => None,
        Some((n, p)) => {
            if n > (s.len() - p) as u64 {
                return None;
            }
            let end: usize = p + n as usize;
            let mut b: Vec<u8> = Vec::new();
            let mut i: usize = p;
            while i < end
                invariant
                    p <= i <= end,
                    end <= s@.len(),
                    b@ == s@.subrange(p as int, i as int),
                decreases end - i,
            {
                b.push(s[i]);
                i = i + 1;
                assert(b@ =~= s@.subrange(p as int, i as int));
            }
            Some((b, end))
        },
    }
}

/// Reads an optional byte string at `pos`.
pub fn read_opt_field(s: &[u8], pos: usize) -> (r: Option<(Option<Vec<u8>>, usize)>)
    ensures
        match r {
            Some((o, p)) => parse_opt_field(s@, pos as int) == Some((opt_view(&o), p as int)),
            None => parse_opt_field(s@, pos as int) is None,
        },
{
    if pos >= s.len() {
        return None;
    }
    if s[pos] == 0 {
        Some((None, pos + 1))
    } else if s[pos] == 1 {
        match read_field(s, pos + 1) {
            Some((b, p)) => Some((Some(b), p)),
            None => None,
        }
    } else {
        None
    }
}

/// The lower-case hex digit of a value below sixteen.
pub open spec fn hex_digit(v: int) -> u8 {
    if v < 10 {
        (48 + v) as u8
    } else {
        (87 + v) as u8
    }
}

pub open spec fn is_hex_digit(c: u8) -> bool {
    (48 <= c <= 57) || (97 <= c <= 102)
}

pub open spec fn hex_value(c: u8) -> int {
    if c <= 57 {
        c - 48
    } else {
        c - 87
    }
}

/// Two lower-case hex digits per byte, high half first.
pub open spec fn hex_encode(b: Seq<u8>) -> Seq<u8> {
    Seq::new(
        2 * b.len(),
        |i: int|
            if i % 2 == 0 {
                hex_digit((b[i / 2] / 16) as int)
            } else {
                hex_digit((b[i / 2] % 16) as int)
            },
    )
}

pub open spec fn hex_valid(s: Seq<u8>) -> bool {
    s.len() % 2 == 0 && forall|i: int| 0 <= i < s.len() ==> is_hex_digit(#[trigger] s[i])
}

pub open spec fn hex_decode(s: Seq<u8>) -> Option<Seq<u8>> {
    if hex_valid(s) {
        Some(
            Seq::new(
                s.len() / 2,
                |i: int| (hex_value(s[2 * i]) * 16 + hex_value(s[2 * i + 1])) as u8,
            ),
        )
    } else {
        None
    }
}

pub proof fn lemma_hex_round_trip(b: Seq<u8>)
    ensures
        hex_decode(hex_encode(b)) == Some(b),
{
    let h = hex_encode(b);
    assert forall|i: int| 0 <= i < h.len() implies is_hex_digit(#[trigger] h[i]) by {
        if i % 2 == 0 {
            assert(b[i / 2] / 16 < 16);
        }
    }
    let d = hex_decode(h).unwrap();
    assert forall|i: int| 0 <= i < b.len() implies #[trigger] d[i] == b[i] by {
        assert((2 * i) / 2 == i);
        assert((2 * i + 1) / 2 == i);
        assert((2 * i) % 2 == 0);
        assert((2 * i + 1) % 2 == 1);
    }
    assert(d =~= b);
}

fn hex_char(v: u8) -> (r: u8)
    requires
        v < 16,
    ensures
        r == hex_digit(v as int),
{
    if v < 10 {
        48 + v
    } else {
        87 + v
    }
}

/// Writes `b` as lower-case hex after what `out` holds.
pub fn push_hex(out: &mut Vec<u8>, b: &[u8])
    ensures
        final(out)@ == old(out)@ + hex_encode(b@),
{
    let ghost start = out@;
    let mut i: usize = 0;
    while i < b.len()
        invariant
            i <= b@.len(),
            out@ == start + hex_encode(b@.subrange(0, i as int)),
        decreases b@.len() - i,
    {
        let x = b[i];
        out.push(hex_char(x / 16));
        out.push(hex_char(x % 16));
        i = i + 1;
        assert(out@ =~= start + hex_encode(b@.subrange(0, i as int))) by {
            let h = hex_encode(b@.subrange(0, i as int));
            assert forall|k: int| 0 <= k < h.len() implies #[trigger] h[k] == out@[start.len()
                + k] by {
                if k < 2 * (i - 1) {
                    assert(hex_encode(b@.subrange(0, i - 1))[k] == h[k]);
                }
            }
        }
    }
    assert(b@.subrange(0, i as int) =~= b@);
}

fn hex_val(c: u8) -> (r: Option<u8>)
    ensures
        r is Some <==> is_hex_digit(c),
        r matches Some(v) ==> v == hex_value(c) && v < 16,
{
    if 48 <= c && c <= 57 {
        Some(c - 48)
    } else if 97 <= c && c <= 102 {
        Some(c - 87)
    } else {
        None
    }
}

/// Reads lower-case hex from `pos` to the end of `s`.
pub fn read_hex(s: &[u8], pos: usize) -> (r: Option<Vec<u8>>)
    requires
        pos <= s@.len(),
    ensures
        match r {
            Some(b) => hex_decode(s@.subrange(pos as int, s@.len() as int)) == Some(b@),
            None => hex_decode(s@.subrange(pos as int, s@.len() as int)) is None,
        },
{
    let ghost h = s@.subrange(pos as int, s@.len() as int);
    let n: usize = s.len() - pos;
    if n % 2 != 0 {
        return None;
    }
    let mut out: Vec<u8> = Vec::new();
    let mut i: usize = 0;
    while i < n / 2
        invariant
            n == h.len(),
            n % 2 == 0,
            pos + n == s@.len(),
            s@.len() <= usize::MAX,
            h == s@.subrange(pos as int, s@.len() as int),
            i <= n / 2,
            out@.len() == i,
            forall|k: int| 0 <= k < 2 * i ==> is_hex_digit(#[trigger] h[k]),
            forall|k: int|
                0 <= k < i ==> #[trigger] out@[k] == (hex_value(h[2 * k]) * 16 + hex_value(
                    h[2 * k + 1],
                )) as u8,
        decreases n / 2 - i,
    {
        assert(2 * i + 1 < n);
        let a = hex_val(s[pos + 2 * i]);
        let c = hex_val(s[pos + 2 * i + 1]);
        match (a, c) {
            (Some(x), Some(y)) => {
                proof {
                    assert(x * 16 + y < 256) by (nonlinear_arith)
                        requires
                            x < 16,
                            y < 16,
                    ;
                }
                out.push(x * 16 + y);
                i = i + 1;
                assert forall|k: int| 0 <= k < 2 * i implies is_hex_digit(#[trigger] h[k]) by {
                    if k >= 2 * (i - 1) {
                        assert(k == 2 * (i - 1) || k == 2 * (i - 1) + 1);
                    }
                }
            },
            _ => {
                proof {
                    assert(!is_hex_digit(h[2 * i as int]) || !is_hex_digit(h[2 * i + 1]));
                }
                return None;
            },
        }
    }
    assert(hex_decode(h).unwrap() =~= out@);
    Some(out)
}

} // verus!
