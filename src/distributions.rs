use rand::rngs::StdRng;
use rand::seq::SliceRandom;
use rand::Rng;
use vstd::prelude::*;
use vstd::string::StringExecFns;

use crate::sorts::permutes;

verus! {

broadcast use vstd::seq_lib::group_to_multiset_ensures, vstd::multiset::group_multiset_axioms;

/// The random generator of `rand`, `rand::rngs::StdRng`, carried through as an opaque value.
#[verifier::external_type_specification]
#[verifier::external_body]
pub struct ExStdRng(StdRng);

/// Relies on `rand::Rng::gen` for `i32`: one value drawn uniformly from the whole range of
/// `i32`. Any value may come back.
#[verifier::external_body]
fn draw_i32(rng: &mut StdRng) -> (r: i32) {
    rng.gen()
}

/// Relies on `rand::seq::SliceRandom::shuffle`: the values of the slice are put in a random
/// order by swaps, so the slice keeps its values.
#[verifier::external_body]
fn shuffle_slice(data: &mut [i32], rng: &mut StdRng)
    ensures
        permutes(final(data)@, old(data)@),
        final(data)@.len() == old(data)@.len(),
{
    data.shuffle(rng)
}

/// `0, 1, ..., n - 1`.
pub open spec fn ascending(n: nat) -> Seq<i32> {
    Seq::new(n, |i: int| i as i32)
}

/// `n, n - 1, ..., 1`.
pub open spec fn descending(n: nat) -> Seq<i32> {
    Seq::new(n, |i: int| (n - i) as i32)
}

/// `n` zeros.
pub open spec fn zeros(n: nat) -> Seq<i32> {
    Seq::new(n, |i: int| 0i32)
}

/// `0, 1, ..., n - 1`, each taken modulo `m`; with `m == 0` no value is reduced.
pub open spec fn ascending_mod(n: nat, m: nat) -> Seq<i32> {
    Seq::new(n, |i: int| if m == 0 { i as i32 } else { (i % (m as int)) as i32 })
}

/// The first half ascending from 0, the second half descending from `n`.
pub open spec fn ascending_descending(n: nat) -> Seq<i32> {
    Seq::new(
        n,
        |i: int|
            if i < n / 2 {
                i as i32
            } else {
                (n - (i - n / 2)) as i32
            },
    )
}

/// `ascending(n)` with the value at index `m` moved to the end.
pub open spec fn moved_to_end(n: nat, m: nat) -> Seq<i32> {
    Seq::new(
        n,
        |i: int|
            if i < m {
                i as i32
            } else if i < n - 1 {
                (i + 1) as i32
            } else {
                m as i32
            },
    )
}

/// The decimal digit `d` as a character.
pub open spec fn digit_char(d: nat) -> char {
    if d == 0 {
        '0'
    } else if d == 1 {
        '1'
    } else if d == 2 {
        '2'
    } else if d == 3 {
        '3'
    } else if d == 4 {
        '4'
    } else if d == 5 {
        '5'
    } else if d == 6 {
        '6'
    } else if d == 7 {
        '7'
    } else if d == 8 {
        '8'
    } else {
        '9'
    }
}

/// The decimal notation of `n`, without leading zeros.
pub open spec fn decimal(n: nat) -> Seq<char>
    decreases n,
{
    if n < 10 {
        seq![digit_char(n)]
    } else {
        decimal(n / 10) + seq![digit_char(n % 10)]
    }
}

fn digit_str(d: usize) -> (r: &'static str)
    requires
        d < 10,
    ensures
        r@ == seq![digit_char(d as nat)],
{
    proof {
        reveal_strlit("0");
        reveal_strlit("1");
        reveal_strlit("2");
        reveal_strlit("3");
        reveal_strlit("4");
        reveal_strlit("5");
        reveal_strlit("6");
        reveal_strlit("7");
        reveal_strlit("8");
        reveal_strlit("9");
    }
    let r = if d == 0 {
        "0"
    } else if d == 1 {
        "1"
    } else if d == 2 {
        "2"
    } else if d == 3 {
        "3"
    } else if d == 4 {
        "4"
    } else if d == 5 {
        "5"
    } else if d == 6 {
        "6"
    } else if d == 7 {
        "7"
    } else if d == 8 {
        "8"
    } else {
        "9"
    };
    assert(r@ =~= seq![digit_char(d as nat)]);
    r
}

/// Appends the decimal notation of `n` to `s`.
fn append_decimal(s: &mut String, n: usize)
    ensures
        final(s)@ == old(s)@ + decimal(n as nat),
    decreases n,
{
    if n >= 10 {
        append_decimal(s, n / 10);
    }
    s.append(digit_str(n % 10));
    proof {
        if n >= 10 {
            assert(final(s)@ =~= old(s)@ + decimal(n as nat));
        } else {
            assert(final(s)@ =~= old(s)@ + decimal(n as nat));
        }
    }
}

/// A named rule for building an input of a given length.
pub trait InputDistribution {
    /// The display name.
    spec fn label() -> Seq<char>;

    /// `s` is an output that `generate` may give for length `len`.
    spec fn admits(len: nat, s: Seq<i32>) -> bool;

    /// Builds an input of `len` values; only the shuffling and uniform rules draw from `rng`.
    fn generate(rng: &mut StdRng, len: usize) -> (r: Vec<i32>)
        requires
            len <= i32::MAX as usize,
        ensures
            r@.len() == len,
            Self::admits(len as nat, r@),
    ;

    fn name() -> (r: String)
        ensures
            r@ == Self::label(),
    ;
}

/// `0, 1, ..., len - 1`.
pub struct Sorted;

impl InputDistribution for Sorted {
    open spec fn label() -> Seq<char> {
        "Sorted"@
    }

    open spec fn admits(len: nat, s: Seq<i32>) -> bool {
        s == ascending(len)
    }

    fn generate(rng: &mut StdRng, len: usize) -> (r: Vec<i32>) {
        let mut v: Vec<i32> = Vec::new();
        let mut i: usize = 0;
        while i < len
            invariant
                i <= len <= i32::MAX as usize,
                v@ == ascending(i as nat),
            decreases len - i,
        {
            v.push(i as i32);
            i += 1;
            assert(v@ =~= ascending(i as nat));
        }
        v
    }

    fn name() -> (r: String) {
        "Sorted".to_string()
    }
}

/// `len, len - 1, ..., 1`.
pub struct Reverse;

impl InputDistribution for Reverse {
    open spec fn label() -> Seq<char> {
        "Reversed"@
    }

    open spec fn admits(len: nat, s: Seq<i32>) -> bool {
        s == descending(len)
    }

    fn generate(rng: &mut StdRng, len: usize) -> (r: Vec<i32>) {
        let mut v: Vec<i32> = Vec::new();
        let mut i: usize = 0;
        while i < len
            invariant
                i <= len <= i32::MAX as usize,
                v@.len() == i,
                forall|k: int| 0 <= k < i ==> v@[k] == (len - k) as i32,
            decreases len - i,
        {
            v.push((len - i) as i32);
            i += 1;
        }
        assert(v@ =~= descending(len as nat));
        v
    }

    fn name() -> (r: String) {
        "Reversed".to_string()
    }
}

/// `len` zeros.
pub struct AllEqual;

impl InputDistribution for AllEqual {
    open spec fn label() -> Seq<char> {
        "All equal"@
    }

    open spec fn admits(len: nat, s: Seq<i32>) -> bool {
        s == zeros(len)
    }

    fn generate(rng: &mut StdRng, len: usize) -> (r: Vec<i32>) {
        let mut v: Vec<i32> = Vec::new();
        let mut i: usize = 0;
        while i < len
            invariant
                i <= len,
                v@ == zeros(i as nat),
            decreases len - i,
        {
            v.push(0);
            i += 1;
            assert(v@ =~= zeros(i as nat));
        }
        v
    }

    fn name() -> (r: String) {
        "All equal".to_string()
    }
}

/// The ascending input taken modulo `N`, then put in random order; with `N == 0` it is only
/// put in random order.
pub struct ShuffledValues<const N: usize>;

/// The ascending input in random order.
pub type Shuffled = ShuffledValues<0>;

impl<const N: usize> InputDistribution for ShuffledValues<N> {
    open spec fn label() -> Seq<char> {
        if N == 0 {
            "Shuffled"@
        } else {
            "Shuffled ("@ + decimal(N as nat) + " values)"@
        }
    }

    open spec fn admits(len: nat, s: Seq<i32>) -> bool {
        &&& permutes(s, ascending_mod(len, N as nat))
        &&& N > 0 ==> forall|k: int| 0 <= k < s.len() ==> 0 <= #[trigger] s[k] < N
    }

    fn generate(rng: &mut StdRng, len: usize) -> (r: Vec<i32>) {
        let mut v = <Sorted as InputDistribution>::generate(rng, len);
        if N != 0 {
            let mut i: usize = 0;
            while i < len
                invariant
                    i <= len <= i32::MAX as usize,
                    N > 0,
                    v@.len() == len,
                    forall|k: int| 0 <= k < i ==> v@[k] == (k % (N as int)) as i32,
                    forall|k: int| i <= k < len ==> v@[k] == k as i32,
                decreases len - i,
            {
                let x = v[i] as usize % N;
                v.set(i, x as i32);
                i += 1;
            }
        }
        let ghost reduced = v@;
        assert(reduced =~= ascending_mod(len as nat, N as nat));
        shuffle_slice(v.as_mut_slice(), rng);
        proof {
            if N > 0 {
                assert forall|k: int| 0 <= k < v@.len() implies 0 <= #[trigger] v@[k] < N by {
                    assert(v@.contains(v@[k]));
                    assert(reduced.to_multiset().count(v@[k]) > 0);
                    assert(reduced.contains(v@[k]));
                    let j = choose|j: int| 0 <= j < reduced.len() && reduced[j] == v@[k];
                    let m = j % (N as int);
                    assert(0 <= m < N as int && m <= j) by (nonlinear_arith)
                        requires
                            0 <= j,
                            N as int > 0,
                            m == j % (N as int),
                    ;
                    assert(reduced[j] == m as i32);
                }
            }
        }
        v
    }

    fn name() -> (r: String) {
        if N == 0 {
            return "Shuffled".to_string();
        }
        let mut s = "Shuffled (".to_string();
        append_decimal(&mut s, N);
        s.append(" values)");
        s
    }
}

/// The first half ascending from 0, then descending from `len`.
pub struct AscendingDescending;

impl InputDistribution for AscendingDescending {
    open spec fn label() -> Seq<char> {
        "Asc+Dsc"@
    }

    open spec fn admits(len: nat, s: Seq<i32>) -> bool {
        s == ascending_descending(len)
    }

    fn generate(rng: &mut StdRng, len: usize) -> (r: Vec<i32>) {
        let half = len / 2;
        let mut v: Vec<i32> = Vec::new();
        let mut i: usize = 0;
        while i < len
            invariant
                i <= len <= i32::MAX as usize,
                half == len / 2,
                v@.len() == i,
                forall|k: int| 0 <= k < i ==> v@[k] == ascending_descending(len as nat)[k],
            decreases len - i,
        {
            if i < half {
                v.push(i as i32);
            } else {
                v.push((len - (i - half)) as i32);
            }
            i += 1;
        }
        assert(v@ =~= ascending_descending(len as nat));
        v
    }

    fn name() -> (r: String) {
        "Asc+Dsc".to_string()
    }
}

/// The ascending input with its first value moved to the end.
pub struct PushFront;

impl InputDistribution for PushFront {
    open spec fn label() -> Seq<char> {
        "Push front int"@
    }

    open spec fn admits(len: nat, s: Seq<i32>) -> bool {
        s == moved_to_end(len, 0)
    }

    fn generate(rng: &mut StdRng, len: usize) -> (r: Vec<i32>) {
        let mut v = <Sorted as InputDistribution>::generate(rng, len);
        if len == 0 {
            assert(v@ =~= moved_to_end(0, 0));
            return v;
        }
        let i = v.remove(0);
        v.push(i);
        assert(v@ =~= moved_to_end(len as nat, 0));
        v
    }

    fn name() -> (r: String) {
        "Push front int".to_string()
    }
}

/// The ascending input with its middle value (index `len / 2`) moved to the end.
pub struct PushMiddle;

impl InputDistribution for PushMiddle {
    open spec fn label() -> Seq<char> {
        "Push middle int"@
    }

    open spec fn admits(len: nat, s: Seq<i32>) -> bool {
        s == moved_to_end(len, len / 2)
    }

    fn generate(rng: &mut StdRng, len: usize) -> (r: Vec<i32>) {
        let mut v = <Sorted as InputDistribution>::generate(rng, len);
        if len == 0 {
            assert(v@ =~= moved_to_end(0, 0));
            return v;
        }
        let i = v.remove(len / 2);
        v.push(i);
        assert(v@ =~= moved_to_end(len as nat, len as nat / 2));
        v
    }

    fn name() -> (r: String) {
        "Push middle int".to_string()
    }
}

/// `len` values drawn independently and uniformly from the whole range of `i32`.
pub struct Uniform;

impl InputDistribution for Uniform {
    open spec fn label() -> Seq<char> {
        "Uniform"@
    }

    open spec fn admits(len: nat, s: Seq<i32>) -> bool {
        true
    }

    fn generate(rng: &mut StdRng, len: usize) -> (r: Vec<i32>) {
        let mut v: Vec<i32> = Vec::new();
        let mut i: usize = 0;
        while i < len
            invariant
                i <= len,
                v@.len() == i,
            decreases len - i,
        {
            v.push(draw_i32(rng));
            i += 1;
        }
        v
    }

    fn name() -> (r: String) {
        "Uniform".to_string()
    }
}

} // verus!
