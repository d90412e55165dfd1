//! Mixed-radix enumeration of every tuple of a fixed length over an ordered
//! alphabet.
//!
//! Index `i` is decoded into a tuple by reading it as a number in base `m`
//! (the alphabet size), least significant position first: position `p` holds
//! `alphabet[(i / m^p) % m]`. Counting `i` from `0` up to `m^k` therefore
//! visits every tuple of length `k` exactly once, without recursion and
//! without keeping earlier tuples.
use vstd::prelude::*;

verus! {

/// `m` to the power `k`, the number of tuples of length `k` over `m` symbols.
pub open spec fn power(m: nat, k: nat) -> nat
    decreases k,
{
    if k == 0 {
        1
    } else {
        m * power(m, (k - 1) as nat)
    }
}

/// The digit at position `p` of `i` written in base `m`.
pub open spec fn digit(i: nat, m: nat, p: nat) -> nat
    recommends
        m > 0,
{
    ((i / power(m, p)) % m) as nat
}

/// The base-`m` digits of `i` at positions `0..k`, least significant first.
pub open spec fn decode(i: nat, m: nat, k: nat) -> Seq<nat> {
    Seq::new(k, |p: int| digit(i, m, p as nat))
}

/// The number whose base-`m` digits, least significant first, are `ds`.
pub open spec fn encode(ds: Seq<nat>, m: nat) -> nat
    decreases ds.len(),
{
    if ds.len() == 0 {
        0
    } else {
        ds[0] + m * encode(ds.drop_first(), m)
    }
}

/// The tuple that index `i` stands for.
pub open spec fn combination<T>(alphabet: Seq<T>, i: nat, k: nat) -> Seq<T> {
    Seq::new(k, |p: int| alphabet[digit(i, alphabet.len(), p as nat) as int])
}

/// Every tuple of length `k` over `alphabet`, in counting order.
pub open spec fn enumeration<T>(alphabet: Seq<T>, k: nat) -> Seq<Seq<T>> {
    Seq::new(power(alphabet.len(), k), |i: int| combination(alphabet, i as nat, k))
}

/// Whether `t` is a tuple of length `k` whose every entry is drawn from
/// `alphabet`.
pub open spec fn is_tuple_over<T>(alphabet: Seq<T>, k: nat, t: Seq<T>) -> bool {
    &&& t.len() == k
    &&& forall|p: int| 0 <= p < k ==> #[trigger] alphabet.contains(t[p])
}

/// The full cross product of `alphabet` with itself `k` times.
pub open spec fn cross_product<T>(alphabet: Seq<T>, k: nat) -> Set<Seq<T>> {
    Set::new(|t: Seq<T>| is_tuple_over(alphabet, k, t))
}

pub proof fn lemma_power_positive(m: nat, k: nat)
    requires
        m > 0,
    ensures
        power(m, k) > 0,
    decreases k,
{
    if k > 0 {
        lemma_power_positive(m, (k - 1) as nat);
        assert(m * power(m, (k - 1) as nat) > 0) by (nonlinear_arith)
            requires
                m > 0,
                power(m, (k - 1) as nat) > 0,
        ;
    }
}

pub proof fn lemma_power_of_zero(k: nat)
    requires
        k > 0,
    ensures
        power(0, k) == 0,
{
}

pub proof fn lemma_power_monotone(m: nat, j: nat, k: nat)
    requires
        m > 0,
        j <= k,
    ensures
        power(m, j) <= power(m, k),
    decreases k - j,
{
    if j < k {
        lemma_power_monotone(m, j, (k - 1) as nat);
        lemma_power_positive(m, (k - 1) as nat);
        assert(power(m, (k - 1) as nat) <= m * power(m, (k - 1) as nat)) by (nonlinear_arith)
            requires
                m > 0,
        ;
    }
}

/// Shifting by one position: the digit at `p + 1` of `i` is the digit at `p`
/// of `i / m`.
proof fn lemma_digit_shift(i: nat, m: nat, p: nat)
    requires
        m > 0,
    ensures
        digit(i, m, p + 1) == digit(i / m, m, p),
{
    lemma_power_positive(m, p);
    let q = power(m, p);
    assert(power(m, p + 1) == m * q);
    assert((i as int) / ((m * q) as int) == ((i as int) / (m as int)) / (q as int)) by {
        vstd::arithmetic::div_mod::lemma_div_denominator(i as int, m as int, q as int);
    }
}

proof fn lemma_digit_zero(i: nat, m: nat)
    requires
        m > 0,
    ensures
        digit(i, m, 0) == i % m,
{
    assert(power(m, 0) == 1);
}

/// Every digit is a valid index into an alphabet of `m` symbols.
pub proof fn lemma_digit_bound(i: nat, m: nat, p: nat)
    requires
        m > 0,
    ensures
        digit(i, m, p) < m,
{
    lemma_power_positive(m, p);
}

/// Decoding the encoding of a digit sequence gives the digits back.
proof fn lemma_decode_encode(ds: Seq<nat>, m: nat)
    requires
        m > 0,
        forall|p: int| 0 <= p < ds.len() ==> #[trigger] ds[p] < m,
    ensures
        decode(encode(ds, m), m, ds.len()) =~= ds,
        encode(ds, m) < power(m, ds.len()),
    decreases ds.len(),
{
    if ds.len() > 0 {
        let rest = ds.drop_first();
        lemma_decode_encode(rest, m);
        let e = encode(ds, m);
        let er = encode(rest, m);
        assert(e == ds[0] + m * er);
        assert((ds[0] + m * er) % m == ds[0] && (ds[0] + m * er) / m == er)
            by (nonlinear_arith)
            requires
                ds[0] < m,
                m > 0,
        ;
        assert forall|p: int| 0 <= p < ds.len() implies #[trigger] decode(e, m, ds.len())[p]
            == ds[p] by {
            if p == 0 {
                lemma_digit_zero(e, m);
            } else {
                lemma_digit_shift(e, m, (p - 1) as nat);
                assert(decode(er, m, rest.len())[p - 1] == rest[p - 1]);
            }
        }
        assert(er < power(m, rest.len()));
        assert(ds[0] + m * er < m * power(m, rest.len())) by (nonlinear_arith)
            requires
                ds[0] < m,
                er < power(m, rest.len()),
        ;
    }
}

/// Encoding the digits of an index below `m^k` gives the index back.
proof fn lemma_encode_decode(i: nat, m: nat, k: nat)
    requires
        m > 0,
        i < power(m, k),
    ensures
        encode(decode(i, m, k), m) == i,
    decreases k,
{
    let ds = decode(i, m, k);
    if k == 0 {
        assert(i == 0);
    } else {
        let q = i / m;
        assert(q < power(m, (k - 1) as nat) && i == i % m + m * q) by (nonlinear_arith)
            requires
                i < m * power(m, (k - 1) as nat),
                q == i / m,
                m > 0,
        ;
        lemma_encode_decode(q, m, (k - 1) as nat);
        assert forall|p: int| 0 <= p < k - 1 implies #[trigger] ds.drop_first()[p] == decode(
            q,
            m,
            (k - 1) as nat,
        )[p] by {
            lemma_digit_shift(i, m, p as nat);
        }
        assert(ds.drop_first() =~= decode(q, m, (k - 1) as nat));
        lemma_digit_zero(i, m);
    }
}

/// The index-to-digits mapping is injective on `0..m^k`: every index
/// decodes to digits below `m` and encoding those digits gives the index back,
/// so no two indices share a digit sequence.
pub proof fn lemma_index_bijection(m: nat, k: nat)
    requires
        m > 0,
    ensures
        forall|i: nat|
            i < power(m, k) ==> encode(#[trigger] decode(i, m, k), m) == i && forall|p: int|
                0 <= p < k ==> decode(i, m, k)[p] < m,
        forall|i: nat, j: nat|
            i < power(m, k) && j < power(m, k) && i != j ==> #[trigger] decode(i, m, k)
                != #[trigger] decode(j, m, k),
{
    assert forall|i: nat| i < power(m, k) implies encode(#[trigger] decode(i, m, k), m) == i
        && forall|p: int| 0 <= p < k ==> decode(i, m, k)[p] < m by {
        lemma_encode_decode(i, m, k);
        assert forall|p: int| 0 <= p < k implies decode(i, m, k)[p] < m by {
            lemma_digit_bound(i, m, p as nat);
        }
    }
    assert forall|i: nat, j: nat|
        i < power(m, k) && j < power(m, k) && i != j implies #[trigger] decode(i, m, k)
        != #[trigger] decode(j, m, k) by {
        lemma_encode_decode(i, m, k);
        lemma_encode_decode(j, m, k);
    }
}

/// Every sequence of `k` digits below `m` is the decoding of an index below
/// `m^k`, the one that encodes it.
pub proof fn lemma_digits_have_index(ds: Seq<nat>, m: nat)
    requires
        m > 0,
        forall|p: int| 0 <= p < ds.len() ==> #[trigger] ds[p] < m,
    ensures
        encode(ds, m) < power(m, ds.len()),
        decode(encode(ds, m), m, ds.len()) == ds,
{
    lemma_decode_encode(ds, m);
    assert(decode(encode(ds, m), m, ds.len()) =~= ds);
}

/// Every tuple that enumeration lists is drawn from the alphabet, and every
/// tuple drawn from the alphabet is listed.
pub proof fn lemma_enumeration_covers<T>(alphabet: Seq<T>, k: nat)
    ensures
        forall|i: int|
            0 <= i < enumeration(alphabet, k).len() ==> #[trigger] is_tuple_over(
                alphabet,
                k,
                enumeration(alphabet, k)[i],
            ),
        forall|t: Seq<T>| #[trigger]
            cross_product(alphabet, k).contains(t) ==> enumeration(alphabet, k).contains(t),
{
    let m = alphabet.len();
    let e = enumeration(alphabet, k);
    if m == 0 && k > 0 {
        lemma_power_of_zero(k);
        assert forall|t: Seq<T>| !#[trigger] cross_product(alphabet, k).contains(t) by {
            if t.len() == k {
                assert(!alphabet.contains(t[0]));
            }
        }
        return;
    }
    assert forall|i: int| 0 <= i < e.len() implies #[trigger] is_tuple_over(alphabet, k, e[i]) by {
        assert forall|p: int| 0 <= p < k implies #[trigger] alphabet.contains(e[i][p]) by {
            lemma_digit_bound(i as nat, m, p as nat);
            assert(alphabet[digit(i as nat, m, p as nat) as int] == e[i][p]);
        }
    }
    assert forall|t: Seq<T>| #[trigger] cross_product(alphabet, k).contains(t) implies e.contains(
        t,
    ) by {
        if k == 0 {
            assert(e[0] =~= t);
        } else {
            let ds = Seq::new(k, |p: int| alphabet.index_of(t[p]) as nat);
            assert forall|p: int| 0 <= p < ds.len() implies #[trigger] ds[p] < m by {
                assert(alphabet.contains(t[p]));
            }
            lemma_digits_have_index(ds, m);
            let i = encode(ds, m);
            assert(e[i as int] =~= t) by {
                assert forall|p: int| 0 <= p < k implies #[trigger] e[i as int][p] == t[p] by {
                    assert(alphabet.contains(t[p]));
                    assert(decode(i, m, k)[p] == ds[p]);
                }
            }
        }
    }
}

/// Enumeration covers the cross product exactly once: over an alphabet of
/// distinct symbols it lists `m^k` tuples, no tuple twice, and its tuples are
/// exactly those of length `k` drawn from the alphabet.
pub proof fn lemma_enumeration_exhaustive<T>(alphabet: Seq<T>, k: nat)
    requires
        alphabet.no_duplicates(),
    ensures
        enumeration(alphabet, k).len() == power(alphabet.len(), k),
        enumeration(alphabet, k).no_duplicates(),
        enumeration(alphabet, k).to_set() == cross_product(alphabet, k),
{
    let m = alphabet.len();
    let e = enumeration(alphabet, k);
    lemma_enumeration_covers(alphabet, k);
    if m > 0 {
        lemma_index_bijection(m, k);
        assert forall|i: int, j: int|
            0 <= i < e.len() && 0 <= j < e.len() && i != j implies e[i] != e[j] by {
            if e[i] == e[j] {
                assert forall|p: int| 0 <= p < k implies #[trigger] decode(i as nat, m, k)[p]
                    == decode(j as nat, m, k)[p] by {
                    lemma_digit_bound(i as nat, m, p as nat);
                    lemma_digit_bound(j as nat, m, p as nat);
                    assert(e[i][p] == e[j][p]);
                }
                assert(decode(i as nat, m, k) =~= decode(j as nat, m, k));
            }
        }
    } else if k > 0 {
        lemma_power_of_zero(k);
    }
    assert forall|t: Seq<T>| #[trigger] e.contains(t) implies cross_product(alphabet, k).contains(
        t,
    ) by {
        let i = choose|i: int| 0 <= i < e.len() && e[i] == t;
        assert(is_tuple_over(alphabet, k, e[i]));
    }
    assert(e.to_set() =~= cross_product(alphabet, k));
}

/// An enumerator over the tuples of length `length` drawn from
/// `possibilities`, produced one at a time in counting order.
///
/// It keeps the table `m^0, m^1, .., m^(length-1)` of place values and the
/// total `m^length`, so that producing a tuple costs one division and one
/// remainder per position and no exponentiation.
pub struct CombinationIterator<'a, T> {
    iteration: usize,
    length: usize,
    possibilities: &'a [T],
    place_values: Vec<usize>,
    total: usize,
}

impl<'a, T: Copy> CombinationIterator<'a, T> {
    /// The alphabet being enumerated.
    pub closed spec fn alphabet(&self) -> Seq<T> {
        self.possibilities@
    }

    /// The length of every tuple produced.
    pub closed spec fn length(&self) -> nat {
        self.length as nat
    }

    /// The index of the next tuple to produce.
    pub closed spec fn position(&self) -> nat {
        self.iteration as nat
    }

    pub closed spec fn wf(&self) -> bool {
        &&& self.place_values@.len() == self.length
        &&& forall|p: int|
            0 <= p < self.length ==> #[trigger] self.place_values@[p] == power(
                self.possibilities@.len(),
                p as nat,
            )
        &&& self.total == power(self.possibilities@.len(), self.length as nat)
        &&& self.iteration <= self.total
    }

    /// The number of tuples in the whole enumeration.
    pub open spec fn total(&self) -> nat {
        power(self.alphabet().len(), self.length())
    }

    /// The tuples still to be produced, in order.
    pub open spec fn remaining(&self) -> Seq<Seq<T>> {
        enumeration(self.alphabet(), self.length()).subrange(
            self.position() as int,
            self.total() as int,
        )
    }

    /// Starts an enumeration of the tuples of length `length`. Returns `None`
    /// when their number `m^length` does not fit in `usize`, since the
    /// position could then not be counted.
    pub fn new(possibilities: &'a [T], length: usize) -> (r: Option<Self>)
        ensures
            r is None <==> power(possibilities@.len(), length as nat) > usize::MAX,
            r matches Some(it) ==> {
                &&& it.wf()
                &&& it.alphabet() == possibilities@
                &&& it.length() == length
                &&& it.position() == 0
                &&& it.remaining() == enumeration(possibilities@, length as nat)
            },
    {
        let m = possibilities.len();
        let mut place_values: Vec<usize> = Vec::new();
        let mut value: usize = 1;
        let mut p: usize = 0;
        while p < length
            invariant
                p <= length,
                m == possibilities@.len(),
                value == power(m as nat, p as nat),
                place_values@.len() == p,
                forall|q: int| 0 <= q < p ==> #[trigger] place_values@[q] == power(m as nat, q as nat),
            decreases length - p,
        {
            place_values.push(value);
            match value.checked_mul(m) {
                Some(next) => {
                    value = next;
                },
                None => {
                    proof {
                        assert(power(m as nat, (p + 1) as nat) == m * value);
                        lemma_power_monotone(m as nat, (p + 1) as nat, length as nat);
                    }
                    return None;
                },
            }
            p = p + 1;
        }
        let it = CombinationIterator {
            iteration: 0,
            length,
            possibilities,
            place_values,
            total: value,
        };
        proof {
            assert(it.remaining() =~= enumeration(possibilities@, length as nat));
        }
        Some(it)
    }

    /// The base-`m` digit at `position` of the counter: the alphabet index
    /// at that position of the current tuple. At `position == length` it is
    /// the sentinel digit, which for `m >= 2` is nonzero exactly once the
    /// counter has reached `m^length`.
    fn get_index_on_position(&self, position: usize) -> (r: usize)
        requires
            self.wf(),
            position <= self.length,
            self.alphabet().len() > 0,
        ensures
            r == digit(self.position(), self.alphabet().len(), position as nat),
            r < self.alphabet().len(),
            position == self.length && self.alphabet().len() >= 2 ==> (r != 0 <==> self.position()
                == self.total()),
    {
        let m = self.possibilities.len();
        let place = if position == self.length {
            self.total
        } else {
            self.place_values[position]
        };
        proof {
            lemma_power_positive(m as nat, position as nat);
            lemma_digit_bound(self.iteration as nat, m as nat, position as nat);
            if position == self.length && m >= 2 {
                let i = self.iteration as int;
                let t = self.total as int;
                assert(t > 0);
                if i < t {
                    assert(i / t == 0) by (nonlinear_arith)
                        requires
                            0 <= i < t,
                    ;
                    vstd::arithmetic::div_mod::lemma_small_mod(0, m as nat);
                } else {
                    assert(i / t == 1) by (nonlinear_arith)
                        requires
                            i == t,
                            t > 0,
                    ;
                    vstd::arithmetic::div_mod::lemma_small_mod(1, m as nat);
                }
            }
        }
        (self.iteration / place) % m
    }

    /// Produces the next tuple and advances by one, or returns `None` once
    /// all `m^length` tuples have been produced.
    pub fn next(&mut self) -> (r: Option<Vec<T>>)
        requires
            old(self).wf(),
        ensures
            final(self).wf(),
            final(self).alphabet() == old(self).alphabet(),
            final(self).length() == old(self).length(),
            final(self).position() <= final(self).total(),
            match r {
                Some(v) => {
                    &&& old(self).position() < old(self).total()
                    &&& v@ == combination(old(self).alphabet(), old(self).position(), old(self).length())
                    &&& final(self).position() == old(self).position() + 1
                },
                None => {
                    &&& old(self).position() == old(self).total()
                    &&& final(self).position() == old(self).position()
                },
            },
            r matches Some(v) ==> v@ == old(self).remaining()[0] && final(self).remaining()
                == old(self).remaining().drop_first(),
            r is None ==> old(self).remaining().len() == 0,
    {
        if self.iteration >= self.total {
            return None;
        }
        let mut values: Vec<T> = Vec::new();
        let mut p: usize = 0;
        while p < self.length
            invariant
                self.wf(),
                self.iteration < self.total,
                p <= self.length,
                values@ =~= combination(self.alphabet(), self.position(), self.length()).subrange(
                    0,
                    p as int,
                ),
            decreases self.length - p,
        {
            proof {
                if self.possibilities@.len() == 0 {
                    lemma_power_of_zero(self.length as nat);
                }
            }
            let index = self.get_index_on_position(p);
            values.push(self.possibilities[index]);
            p = p + 1;
        }
        proof {
            assert(values@ =~= combination(self.alphabet(), self.position(), self.length()));
        }
        self.iteration = self.iteration + 1;
        proof {
            assert(old(self).remaining().drop_first() =~= self.remaining());
        }
        Some(values)
    }
}

/// Enumeration order depends on the alphabet and the length alone: two
/// enumerators over equal alphabets with equal lengths, at the same position,
/// have the same tuples still to come, in the same order.
pub proof fn lemma_order_determined<T: Copy>(
    a: CombinationIterator<'_, T>,
    b: CombinationIterator<'_, T>,
)
    requires
        a.wf(),
        b.wf(),
        a.alphabet() == b.alphabet(),
        a.length() == b.length(),
        a.position() == b.position(),
    ensures
        a.remaining() == b.remaining(),
        a.total() == b.total(),
{
}

} // verus!
