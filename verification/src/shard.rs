//! The shard encoder: a counter value becomes a 12-digit zero-padded decimal
//! leaf filename under three levels of 3-digit shard directories.

use vstd::prelude::*;
use vstd::string::StringExecFns;
use vstd::arithmetic::div_mod::{
    lemma_div_basics, lemma_div_denominator, lemma_div_pos_is_pos, lemma_fundamental_div_mod,
    lemma_fundamental_div_mod_converse, lemma_mod_bound,
};
use vstd::arithmetic::mul::{lemma_mul_inequality, lemma_mul_is_associative};
use vstd::set::axiom_set_choose_len;
use vstd::set_lib::{lemma_int_range, set_int_range};

verus! {

/// First counter value (exclusive bound) that the 12-digit encoding cannot
/// represent: `10^12`.
pub const COUNTER_LIMIT: u64 = 1_000_000_000_000;

/// `10^k`.
pub open spec fn pow10(k: nat) -> nat
    decreases k,
{
    if k == 0 {
        1
    } else {
        10 * pow10((k - 1) as nat)
    }
}

/// The decimal digit of `c` with place value `10^e`.
pub open spec fn digit_at(c: int, e: nat) -> int {
    (c / pow10(e) as int) % 10
}

/// The character for one decimal digit.
pub open spec fn digit_char(d: int) -> char {
    if d == 0 {
        '0'
    } else if d == 1 {
        '1'
    } else if d == 2 {
        '2'
    } else if d == 3 {
        '3'
    } else if d == 4 {
        '4'
    } else if d == 5 {
        '5'
    } else if d == 6 {
        '6'
    } else if d == 7 {
        '7'
    } else if d == 8 {
        '8'
    } else {
        '9'
    }
}

/// The leaf filename of slot `c`: its 12 decimal digits, most significant
/// first, zero-padded.
pub open spec fn leaf_name(c: int) -> Seq<char> {
    Seq::new(12, |i: int| digit_char(digit_at(c, (11 - i) as nat)))
}

/// The shard directories of slot `c`, relative to the root: the three
/// consecutive 3-digit groups of the leaf name, `"S0/S1/S2"`.
pub open spec fn shard_dirs(c: int) -> Seq<char> {
    leaf_name(c).subrange(0, 3) + seq!['/'] + leaf_name(c).subrange(3, 6) + seq!['/'] + leaf_name(
        c,
    ).subrange(6, 9)
}

/// The path of slot `c` relative to the root: `"S0/S1/S2/<leaf>"`.
pub open spec fn rel_path(c: int) -> Seq<char> {
    shard_dirs(c) + seq!['/'] + leaf_name(c)
}

/// The absolute path of slot `c` under `root`.
pub open spec fn slot_path(root: Seq<char>, c: int) -> Seq<char> {
    root + seq!['/'] + rel_path(c)
}

/// The powers of ten that the encoder works with.
proof fn lemma_pow10_values()
    ensures
        pow10(0) == 1,
        pow10(1) == 10,
        pow10(2) == 100,
        pow10(3) == 1000,
        pow10(9) == 1_000_000_000,
        pow10(11) == 100_000_000_000,
        pow10(12) == COUNTER_LIMIT,
{
    reveal_with_fuel(pow10, 13);
    assert(pow10(4) == 10_000);
    assert(pow10(5) == 100_000);
    assert(pow10(6) == 1_000_000);
    assert(pow10(7) == 10_000_000);
    assert(pow10(8) == 100_000_000);
    assert(pow10(9) == 1_000_000_000);
    assert(pow10(10) == 10_000_000_000);
    assert(pow10(11) == 100_000_000_000);
    assert(pow10(12) == 1_000_000_000_000);
}

/// `10^k` is positive.
proof fn lemma_pow10_pos(k: nat)
    ensures
        pow10(k) >= 1,
    decreases k,
{
    if k > 0 {
        lemma_pow10_pos((k - 1) as nat);
    }
}

/// Appends the character of one decimal digit.
fn push_digit(s: &mut String, d: u64)
    requires
        d < 10,
    ensures
        final(s)@ == old(s)@ + seq![digit_char(d as int)],
{
    let t: &str = if d == 0 {
        "0"
    } else if d == 1 {
        "1"
    } else if d == 2 {
        "2"
    } else if d == 3 {
        "3"
    } else if d == 4 {
        "4"
    } else if d == 5 {
        "5"
    } else if d == 6 {
        "6"
    } else if d == 7 {
        "7"
    } else if d == 8 {
        "8"
    } else {
        "9"
    };
    proof {
        reveal_strlit("0");
        reveal_strlit("1");
        reveal_strlit("2");
        reveal_strlit("3");
        reveal_strlit("4");
        reveal_strlit("5");
        reveal_strlit("6");
        reveal_strlit("7");
        reveal_strlit("8");
        reveal_strlit("9");
        assert(t@ =~= seq![digit_char(d as int)]);
    }
    s.append(t);
}

/// Renders the leaf filename of slot `c`.
pub fn leaf_name_of(c: u64) -> (r: String)
    requires
        c < COUNTER_LIMIT,
    ensures
        r@ == leaf_name(c as int),
        r@.len() == 12,
{
    let mut s = String::new();
    let mut p: u64 = 100_000_000_000;
    let mut i: usize = 0;
    proof {
        lemma_pow10_values();
    }
    while i < 12
        invariant
            i <= 12,
            i < 12 ==> p as nat == pow10((11 - i) as nat),
            s@.len() == i,
            forall|j: int| 0 <= j < i ==> s@[j] == digit_char(digit_at(c as int, (11 - j) as nat)),
        decreases 12 - i,
    {
        let ghost e: nat = (11 - i) as nat;
        proof {
            lemma_pow10_pos(e);
        }
        let d = (c / p) % 10;
        assert(d as int == digit_at(c as int, e));
        push_digit(&mut s, d);
        proof {
            if i < 11 {
                assert(pow10(e) == 10 * pow10((e - 1) as nat));
                assert(p / 10 == pow10((e - 1) as nat)) by (nonlinear_arith)
                    requires
                        p as nat == pow10(e),
                        pow10(e) == 10 * pow10((e - 1) as nat),
                ;
            }
        }
        p = p / 10;
        i = i + 1;
    }
    proof {
        assert(s@ =~= leaf_name(c as int));
    }
    s
}

/// Renders `"S0/S1/S2/<leaf>"`, the path of slot `c` relative to the root.
pub fn rel_path_of(c: u64) -> (r: String)
    requires
        c < COUNTER_LIMIT,
    ensures
        r@ == rel_path(c as int),
{
    let leaf = leaf_name_of(c);
    let l = leaf.as_str();
    let s0 = l.substring_char(0, 3);
    let s1 = l.substring_char(3, 6);
    let s2 = l.substring_char(6, 9);
    let mut r = String::new();
    r.append(s0);
    r.append("/");
    r.append(s1);
    r.append("/");
    r.append(s2);
    r.append("/");
    r.append(l);
    proof {
        reveal_strlit("/");
        assert(r@ =~= rel_path(c as int));
    }
    r
}

/// Renders the absolute path of slot `c` under `root`.
pub fn slot_path_of(root: &String, c: u64) -> (r: String)
    requires
        c < COUNTER_LIMIT,
    ensures
        r@ == slot_path(root@, c as int),
{
    let mut r = root.clone();
    r.append("/");
    let rel = rel_path_of(c);
    r.append(rel.as_str());
    proof {
        reveal_strlit("/");
        assert(r@ =~= slot_path(root@, c as int));
    }
    r
}

/// Distinct digits render as distinct characters.
proof fn lemma_digit_char_injective(d1: int, d2: int)
    requires
        0 <= d1 < 10,
        0 <= d2 < 10,
        digit_char(d1) == digit_char(d2),
    ensures
        d1 == d2,
{
}

/// `10^(a+b) == 10^a * 10^b`.
proof fn lemma_pow10_adds(a: nat, b: nat)
    ensures
        pow10(a + b) == pow10(a) * pow10(b),
    decreases a,
{
    if a > 0 {
        lemma_pow10_adds((a - 1) as nat, b);
        let p = pow10((a - 1) as nat) as int;
        let q = pow10(b) as int;
        assert((a + b - 1) as nat == (a - 1) as nat + b);
        assert(pow10(a + b) == 10 * pow10((a + b - 1) as nat));
        assert(pow10(a) == 10 * pow10((a - 1) as nat));
        assert(pow10(a + b) == 10 * (p * q));
        assert(10 * (p * q) == (10 * p) * q) by (nonlinear_arith);
        assert(pow10(a) * pow10(b) == (10 * p) * q);
    } else {
        assert(pow10(0) == 1);
        assert(pow10(a + b) == pow10(b));
    }
}

/// Digits lie in `[0, 10)`.
proof fn lemma_digit_at_bound(c: int, e: nat)
    requires
        0 <= c,
    ensures
        0 <= digit_at(c, e) < 10,
{
    lemma_pow10_pos(e);
    lemma_div_pos_is_pos(c, pow10(e) as int);
    lemma_mod_bound(c / pow10(e) as int, 10);
}

/// A number below `10^k` is determined by its `k` low decimal digits.
proof fn lemma_digits_unique(c1: int, c2: int, k: nat)
    requires
        0 <= c1 < pow10(k),
        0 <= c2 < pow10(k),
        forall|e: nat| e < k ==> digit_at(c1, e) == digit_at(c2, e),
    ensures
        c1 == c2,
    decreases k,
{
    if k == 0 {
        assert(pow10(0) == 1);
    } else {
        assert(pow10(0) == 1);
        lemma_div_basics(c1);
        lemma_div_basics(c2);
        assert(digit_at(c1, 0) == c1 % 10);
        assert(digit_at(c2, 0) == c2 % 10);
        assert(digit_at(c1, 0) == digit_at(c2, 0));
        let d1 = c1 / 10;
        let d2 = c2 / 10;
        let kk = (k - 1) as nat;
        lemma_pow10_pos(kk);
        lemma_fundamental_div_mod(c1, 10);
        lemma_fundamental_div_mod(c2, 10);
        lemma_mod_bound(c1, 10);
        lemma_mod_bound(c2, 10);
        lemma_div_pos_is_pos(c1, 10);
        lemma_div_pos_is_pos(c2, 10);
        assert(pow10(k) == 10 * pow10(kk));
        assert(d1 < pow10(kk)) by {
            if d1 >= pow10(kk) {
                lemma_mul_inequality(pow10(kk) as int, d1, 10);
                assert(false);
            }
        };
        assert(d2 < pow10(kk)) by {
            if d2 >= pow10(kk) {
                lemma_mul_inequality(pow10(kk) as int, d2, 10);
                assert(false);
            }
        };
        assert forall|e: nat| e < kk implies digit_at(d1, e) == digit_at(d2, e) by {
            lemma_pow10_pos(e);
            lemma_div_denominator(c1, 10, pow10(e) as int);
            lemma_div_denominator(c2, 10, pow10(e) as int);
            assert(pow10((e + 1) as nat) == 10 * pow10(e));
            assert(digit_at(c1, (e + 1) as nat) == digit_at(c2, (e + 1) as nat));
        };
        lemma_digits_unique(d1, d2, kk);
    }
}

/// Law: the leaf filename determines the slot; the encoding is
/// collision-free on the supported counter range.
pub proof fn lemma_leaf_name_injective(c1: int, c2: int)
    requires
        0 <= c1 < COUNTER_LIMIT,
        0 <= c2 < COUNTER_LIMIT,
        leaf_name(c1) == leaf_name(c2),
    ensures
        c1 == c2,
{
    lemma_pow10_values();
    assert forall|e: nat| e < 12 implies digit_at(c1, e) == digit_at(c2, e) by {
        let i = 11 - e as int;
        assert(leaf_name(c1)[i] == leaf_name(c2)[i]);
        assert(leaf_name(c1)[i] == digit_char(digit_at(c1, (11 - i) as nat)));
        assert(leaf_name(c2)[i] == digit_char(digit_at(c2, (11 - i) as nat)));
        assert((11 - i) as nat == e);
        lemma_digit_at_bound(c1, e);
        lemma_digit_at_bound(c2, e);
        lemma_digit_char_injective(digit_at(c1, e), digit_at(c2, e));
    };
    lemma_digits_unique(c1, c2, 12);
}

/// Law: distinct slots have distinct absolute paths under one root.
pub proof fn lemma_slot_path_injective(root: Seq<char>, c1: int, c2: int)
    requires
        0 <= c1 < COUNTER_LIMIT,
        0 <= c2 < COUNTER_LIMIT,
        slot_path(root, c1) == slot_path(root, c2),
    ensures
        c1 == c2,
{
    let p1 = slot_path(root, c1);
    let p2 = slot_path(root, c2);
    let n = p1.len() as int;
    assert(p1.len() == root.len() + 25);
    assert(leaf_name(c1) =~= p1.subrange(n - 12, n));
    assert(leaf_name(c2) =~= p2.subrange(n - 12, n));
    lemma_leaf_name_injective(c1, c2);
}

/// Law: the sequential allocator never returns one path twice. Each
/// successful allocation returns the slot one below the new counter value,
/// and the counter only grows, so a later allocation's slot `c2` satisfies
/// `c1 < n1 <= c2` for any earlier allocation's slot `c1` with its counter
/// value `n1` after the earlier call.
pub proof fn lemma_successive_slots_distinct(root: Seq<char>, c1: int, n1: int, c2: int)
    requires
        0 <= c1 < n1 <= c2 < COUNTER_LIMIT,
    ensures
        slot_path(root, c1) != slot_path(root, c2),
{
    if slot_path(root, c1) == slot_path(root, c2) {
        lemma_slot_path_injective(root, c1, c2);
    }
}

/// The slots whose paths lie in the shard directory of slot `c0`.
pub open spec fn dir_slots(c0: int) -> Set<int> {
    Set::new(|c: int| 0 <= c < COUNTER_LIMIT && shard_dirs(c) == shard_dirs(c0))
}

/// The leaf filenames that can ever appear in the shard directory of slot
/// `c0`.
pub open spec fn dir_leaves(c0: int) -> Set<Seq<char>> {
    Set::new(
        |l: Seq<char>| exists|c: int| #[trigger] dir_slots(c0).contains(c) && l == leaf_name(c),
    )
}

/// An injective image keeps the size of its domain.
proof fn lemma_injective_map_len<A, B>(s: Set<A>, f: spec_fn(A) -> B)
    requires
        s.finite(),
        forall|x: A, y: A| s.contains(x) && s.contains(y) && x != y ==> f(x) != f(y),
    ensures
        s.map(f).finite(),
        s.map(f).len() == s.len(),
    decreases s.len(),
{
    broadcast use vstd::set::group_set_axioms;

    if s.len() == 0 {
        assert(forall|x: A| !(#[trigger] s.contains(x)));
        assert forall|b: B| #[trigger] s.map(f).contains(b) implies false by {
            let x = choose|x: A| s.contains(x) && f(x) == b;
        };
        assert(s.map(f) =~= Set::<B>::empty());
    } else {
        let x = s.choose();
        axiom_set_choose_len(s);
        assert(s.contains(x));
        let s2 = s.remove(x);
        assert(s2.len() == s.len() - 1);
        assert forall|y: A, z: A| s2.contains(y) && s2.contains(z) && y != z implies f(y) != f(
            z,
        ) by {
            assert(s.contains(y));
            assert(s.contains(z));
        };
        lemma_injective_map_len(s2, f);
        assert forall|b: B| #[trigger] s.map(f).contains(b) implies s2.map(f).insert(
            f(x),
        ).contains(b) by {
            let a = choose|a: A| s.contains(a) && f(a) == b;
            if a != x {
                assert(s2.contains(a));
                assert(s2.map(f).contains(b));
            }
        };
        assert forall|b: B| #[trigger] s2.map(f).insert(f(x)).contains(b) implies s.map(f).contains(
            b,
        ) by {
            if b == f(x) {
                assert(s.contains(x));
                assert(s.map(f).contains(f(x)));
            } else {
                let a = choose|a: A| s2.contains(a) && f(a) == b;
                assert(s.contains(a));
                assert(s.map(f).contains(b));
            }
        };
        assert(s.map(f) =~= s2.map(f).insert(f(x)));
        assert(!s2.map(f).contains(f(x))) by {
            if s2.map(f).contains(f(x)) {
                let y = choose|y: A| s2.contains(y) && f(y) == f(x);
                assert(s.contains(y));
            }
        };
    }
}

/// Two slots share a shard directory exactly when they lie in the same run
/// of 1,000 consecutive counter values.
pub proof fn lemma_shard_dirs_eq(c1: int, c2: int)
    requires
        0 <= c1 < COUNTER_LIMIT,
        0 <= c2 < COUNTER_LIMIT,
    ensures
        shard_dirs(c1) == shard_dirs(c2) <==> c1 / 1000 == c2 / 1000,
{
    lemma_pow10_values();
    let q1 = c1 / 1000;
    let q2 = c2 / 1000;
    lemma_div_pos_is_pos(c1, 1000);
    lemma_div_pos_is_pos(c2, 1000);
    if shard_dirs(c1) == shard_dirs(c2) {
        assert forall|e: nat| 3 <= e < 12 implies digit_at(c1, e) == digit_at(c2, e) by {
            let j = 11 - e as int;
            let i = if j < 3 {
                j
            } else if j < 6 {
                j + 1
            } else {
                j + 2
            };
            assert(shard_dirs(c1)[i] == shard_dirs(c2)[i]);
            assert(shard_dirs(c1)[i] == leaf_name(c1)[j]);
            assert(shard_dirs(c2)[i] == leaf_name(c2)[j]);
            lemma_digit_at_bound(c1, e);
            lemma_digit_at_bound(c2, e);
            lemma_digit_char_injective(digit_at(c1, e), digit_at(c2, e));
        };
        assert forall|e: nat| e < 9 implies digit_at(q1, e) == digit_at(q2, e) by {
            lemma_pow10_pos(e);
            lemma_div_denominator(c1, 1000, pow10(e) as int);
            lemma_div_denominator(c2, 1000, pow10(e) as int);
            lemma_pow10_adds(3, e);
            assert(digit_at(c1, (e + 3) as nat) == digit_at(c2, (e + 3) as nat));
        };
        lemma_fundamental_div_mod(c1, 1000);
        lemma_fundamental_div_mod(c2, 1000);
        lemma_mod_bound(c1, 1000);
        lemma_mod_bound(c2, 1000);
        assert(q1 < pow10(9));
        assert(q2 < pow10(9));
        lemma_digits_unique(q1, q2, 9);
    }
    if q1 == q2 {
        assert forall|e: nat| 3 <= e < 12 implies digit_at(c1, e) == digit_at(c2, e) by {
            let ee = (e - 3) as nat;
            lemma_pow10_pos(ee);
            lemma_div_denominator(c1, 1000, pow10(ee) as int);
            lemma_div_denominator(c2, 1000, pow10(ee) as int);
            lemma_pow10_adds(3, ee);
            assert(digit_at(c1, e) == digit_at(q1, ee));
            assert(digit_at(c2, e) == digit_at(q2, ee));
        };
        assert forall|i: int| 0 <= i < 11 implies shard_dirs(c1)[i] == shard_dirs(c2)[i] by {
            if i != 3 && i != 7 {
                let j = if i < 3 {
                    i
                } else if i < 7 {
                    i - 1
                } else {
                    i - 2
                };
                assert(shard_dirs(c1)[i] == leaf_name(c1)[j]);
                assert(shard_dirs(c2)[i] == leaf_name(c2)[j]);
                assert(digit_at(c1, (11 - j) as nat) == digit_at(c2, (11 - j) as nat));
            }
        };
        assert(shard_dirs(c1) =~= shard_dirs(c2));
    }
}

/// Law (fanout bound): exactly 1,000 slots map into any one shard
/// directory, and distinct slots have distinct leaf filenames, so no shard
/// directory ever holds more than 1,000 distinct leaf filenames.
pub proof fn lemma_fanout(c0: int)
    requires
        0 <= c0 < COUNTER_LIMIT,
    ensures
        dir_slots(c0).finite(),
        dir_slots(c0).len() == 1000,
        forall|c1: int, c2: int|
            dir_slots(c0).contains(c1) && dir_slots(c0).contains(c2) && c1 != c2 ==> leaf_name(c1)
                != leaf_name(c2),
        dir_leaves(c0).finite(),
        dir_leaves(c0).len() == 1000,
{
    lemma_pow10_values();
    let q = c0 / 1000;
    lemma_div_pos_is_pos(c0, 1000);
    lemma_fundamental_div_mod(c0, 1000);
    lemma_mod_bound(c0, 1000);
    let lo = 1000 * q;
    let hi = 1000 * q + 1000;
    assert(hi <= COUNTER_LIMIT);
    assert forall|c: int| #[trigger] dir_slots(c0).contains(c) implies set_int_range(
        lo,
        hi,
    ).contains(c) by {
        lemma_shard_dirs_eq(c, c0);
        lemma_fundamental_div_mod(c, 1000);
        lemma_mod_bound(c, 1000);
    };
    assert forall|c: int| #[trigger] set_int_range(lo, hi).contains(c) implies dir_slots(
        c0,
    ).contains(c) by {
        lemma_fundamental_div_mod_converse(c, 1000, q, c - 1000 * q);
        lemma_shard_dirs_eq(c, c0);
    };
    assert(dir_slots(c0) =~= set_int_range(lo, hi));
    lemma_int_range(lo, hi);
    assert forall|c1: int, c2: int|
        dir_slots(c0).contains(c1) && dir_slots(c0).contains(c2) && c1 != c2 implies leaf_name(c1)
        != leaf_name(c2) by {
        if leaf_name(c1) == leaf_name(c2) {
            lemma_leaf_name_injective(c1, c2);
        }
    };
    let f = |c: int| leaf_name(c);
    lemma_injective_map_len(dir_slots(c0), f);
    assert forall|l: Seq<char>| #[trigger] dir_leaves(c0).contains(l) implies dir_slots(c0).map(
        f,
    ).contains(l) by {
        let c = choose|c: int| #[trigger] dir_slots(c0).contains(c) && l == leaf_name(c);
        assert(dir_slots(c0).map(f).contains(f(c)));
    };
    assert forall|l: Seq<char>| #[trigger] dir_slots(c0).map(f).contains(l) implies dir_leaves(
        c0,
    ).contains(l) by {
        let c = choose|c: int| dir_slots(c0).contains(c) && l == f(c);
        assert(dir_slots(c0).contains(c) && l == leaf_name(c));
    };
    assert(dir_leaves(c0) =~= dir_slots(c0).map(f));
}

} // verus!
