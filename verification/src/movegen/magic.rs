//! Magic indexing: the hash from the occupancy of a slider's mask squares to
//! a slot of its attack table, and the enumeration of those occupancies.
use crate::bitboard::BitBoard;
use crate::bits::{
    bit, drop_lowest, lemma_bit_and, lemma_bit_or, lemma_bit_single, lemma_bit_zero,
    lemma_bits_equal, lemma_drop_lowest_decreases, lemma_lowest, lowest, popcount, squares,
};
use rand::Rng;
use vstd::prelude::*;

verus! {

/// Multipliers that hash a bishop's relevant occupancy, one per square.
pub const BISHOP_MAGIC: [u64; 64] = [
    0x10102002004a1420, 0x0020010224910040, 0x4090008a00c0288c, 0x0008218124020100,
    0x4002021000100000, 0x8c01100210802300, 0x80140a0104221010, 0x484010880b082002,
    0x0a035a1808008401, 0x4030200404a18102, 0x4180040800890080, 0x9b51a40409801400,
    0x3000040420002002, 0x2200608805402048, 0x00660201822030c6, 0x0000288048029000,
    0x100500a08c100200, 0x0204000810040050, 0x04b4000814240010, 0x404200040a120010,
    0x020c000081a06004, 0x8811900600500801, 0x8100c00c07041042, 0x0011221100823040,
    0x1042883840100402, 0x2088424020020204, 0x0000480410022141, 0x1010040000440008,
    0x5004044014010044, 0x003001008020880c, 0x0488388002220100, 0x002a004008804805,
    0x0404200822a02a00, 0x4108040202048850, 0x1804260101080800, 0x0000202020080080,
    0x8204090200100808, 0x02010ac500160110, 0x0402121208140490, 0x1001840083010190,
    0x1182412020000800, 0x0021041084069200, 0x0141004030040204, 0x0000002018003500,
    0x0110541018884400, 0x200400908201e102, 0x00208a2081000203, 0x04810b2402800112,
    0x2000882108a00140, 0x0000221202a0040c, 0x04800ab308080040, 0x0000400121881008,
    0x0000006042441408, 0x2405189005220140, 0x00b014100408d220, 0x4708890102020688,
    0x0800a90110012001, 0x181002c228230800, 0x400a011421080800, 0x0000002840608804,
    0x0403004860204102, 0x8004002404080200, 0x0000200610810100, 0x002c20008d010100,
];

/// Multipliers that hash a rook's relevant occupancy, one per square.
pub const ROOK_MAGIC: [u64; 64] = [
    0x4080028040002412, 0x04401002a0004000, 0x0080200090020880, 0x8180048008011000,
    0x0100080010050002, 0x020008a110120004, 0x9100010004288200, 0x2100010000218052,
    0x0000800080b44004, 0x2a09002302400184, 0x0009001102a00040, 0x0001002090040900,
    0x0008800400880080, 0x080a001014884200, 0x0424001a30040948, 0x040100008061000a,
    0x1040018000204880, 0xd005404000201000, 0x0007050040200050, 0x000122000a001040,
    0x0806020010201804, 0xc102808042001400, 0x02401c0002080110, 0x0020020021004484,
    0x4009c00080008020, 0x0011008500400960, 0x004500c300102000, 0x8490008080280050,
    0x0050840080800800, 0x0004040080800200, 0x2000888400021001, 0x2018848200004421,
    0x0000804000800832, 0x0030042018400040, 0x8024423202002382, 0x3051100081802800,
    0x4006640080804800, 0x000d802a00802400, 0x0041080224008910, 0x0812440082003041,
    0x0100884016608000, 0x4060004000828028, 0x08a0030210410020, 0x0000080010008080,
    0x8108048801010010, 0x008a001804220010, 0x0020c81e41340050, 0x9000040040920001,
    0x60800420014011c0, 0x0200c30208208200, 0x2604116005410100, 0x0880300080080080,
    0x8200040058008180, 0x01000400803a0080, 0x100801104208a400, 0x0001000140820300,
    0x2108104900800061, 0x000420c002110289, 0x04ca9a0280401022, 0x0200890430010021,
    0x0342000448112062, 0x0021002400181601, 0x3000104091020804, 0x0801002043040082,
];

/// The table slot of the occupancy `occ` under the multiplier `magic`, for a
/// mask of `bits` squares: the top `bits` bits of the wrapped product.
pub open spec fn magic_index(occ: u64, magic: u64, bits: u32) -> int {
    (occ.wrapping_mul(magic) >> ((64 - bits) as u64)) as int
}

/// Computes [`magic_index`].
pub fn magic_slot(occ: u64, magic: u64, bits: u32) -> (slot: usize)
    requires
        1 <= bits <= 12,
    ensures
        slot == magic_index(occ, magic, bits),
        slot < (1u64 << bits),
        slot < 4096,
        bits <= 9 ==> slot < 512,
{
    let product = occ.wrapping_mul(magic);
    let shift = 64 - bits;
    let slot = product >> shift;
    assert(slot < (1u64 << bits) && slot < 4096 && (bits <= 9 ==> slot < 512)) by (bit_vector)
        requires
            1 <= bits <= 12,
            shift == 64 - bits,
            slot == product >> shift,
    ;
    slot as usize
}

/// The subset of `mask` that `idx` selects: the k-th lowest square of `mask`
/// is taken when bit k of `idx` is set.
pub open spec fn deposit(idx: u64, mask: u64) -> u64
    decreases mask,
    via deposit_decreases
{
    if mask == 0 {
        0
    } else {
        let rest = deposit(idx / 2, drop_lowest(mask));
        if idx % 2 == 1 {
            rest | (1u64 << (lowest(mask) as u64))
        } else {
            rest
        }
    }
}

#[via_fn]
proof fn deposit_decreases(idx: u64, mask: u64) {
    if mask != 0 {
        lemma_drop_lowest_decreases(mask);
    }
}

/// The number that selects the subset `sub & mask` of `mask` under [`deposit`].
pub open spec fn extract(sub: u64, mask: u64) -> nat
    decreases mask,
    via extract_decreases
{
    if mask == 0 {
        0
    } else {
        2 * extract(sub, drop_lowest(mask)) + (if bit(sub, lowest(mask)) {
            1nat
        } else {
            0nat
        })
    }
}

#[via_fn]
proof fn extract_decreases(sub: u64, mask: u64) {
    if mask != 0 {
        lemma_drop_lowest_decreases(mask);
    }
}

/// Whether every square of `sub` is a square of `mask`.
pub open spec fn subset_of(sub: u64, mask: u64) -> bool {
    squares(sub).subset_of(squares(mask))
}

/// What `deposit` selects is a subset of the mask, made of the squares whose
/// turn in `idx` is set.
pub proof fn lemma_deposit_bits(idx: u64, mask: u64)
    ensures
        subset_of(deposit(idx, mask), mask),
        mask != 0 ==> forall|i: int|
            #[trigger] bit(deposit(idx, mask), i) == (if i == lowest(mask) {
                idx % 2 == 1
            } else {
                bit(deposit(idx / 2, drop_lowest(mask)), i)
            }),
    decreases mask,
{
    if mask == 0 {
        lemma_bit_zero();
    } else {
        lemma_lowest(mask);
        let rest = deposit(idx / 2, drop_lowest(mask));
        lemma_deposit_bits(idx / 2, drop_lowest(mask));
        let low = 1u64 << (lowest(mask) as u64);
        lemma_bit_single(lowest(mask) as u64);
        lemma_bit_or(rest, low);
        assert forall|i: int| bit(rest, i) implies i != lowest(mask) by {
            assert(squares(rest).contains(i));
            assert(squares(drop_lowest(mask)).contains(i));
        }
        assert forall|i: int| squares(deposit(idx, mask)).contains(i) implies squares(
            mask,
        ).contains(i) by {
            if bit(rest, i) {
                assert(squares(rest).contains(i));
                assert(squares(drop_lowest(mask)).contains(i));
            }
        }
    }
}

/// `1 << n` doubles with each step of `n`.
pub proof fn lemma_shl_double(n: u32)
    requires
        1 <= n <= 63,
    ensures
        (1u64 << n) == 2 * (1u64 << ((n - 1) as u32)),
        (1u64 << n) >= 2,
{
    let m = (n - 1) as u32;
    assert((1u64 << n) == 2 * (1u64 << m) && (1u64 << n) >= 2) by (bit_vector)
        requires
            1 <= n <= 63,
            m == n - 1,
    ;
}

/// Every subset of a mask is selected by a number below `2^popcount(mask)`,
/// and by no other such number.
pub proof fn lemma_extract(sub: u64, mask: u64)
    requires
        popcount(mask) <= 63,
    ensures
        extract(sub, mask) < (1u64 << (popcount(mask) as u32)),
        deposit(extract(sub, mask) as u64, mask) == sub & mask,
    decreases mask,
{
    if mask == 0 {
        assert((1u64 << 0u32) == 1) by (bit_vector);
        assert(sub & 0 == 0) by (bit_vector);
    } else {
        lemma_lowest(mask);
        let m = drop_lowest(mask);
        lemma_extract(sub, m);
        lemma_shl_double(popcount(mask) as u32);
        let e = extract(sub, mask) as u64;
        assert(e / 2 == extract(sub, m));
        lemma_deposit_bits(e, mask);
        lemma_bit_and(sub, mask);
        lemma_bit_and(sub, m);
        assert forall|i: int| 0 <= i < 64 implies bit(deposit(e, mask), i) == bit(sub & mask, i) by {
        }
        lemma_bits_equal(deposit(e, mask), sub & mask);
    }
}

/// `deposit` is one-to-one on the numbers below `2^popcount(mask)`.
pub proof fn lemma_deposit_extract(idx: u64, mask: u64)
    requires
        popcount(mask) <= 63,
        idx < (1u64 << (popcount(mask) as u32)),
    ensures
        extract(deposit(idx, mask), mask) == idx,
    decreases mask,
{
    if mask == 0 {
        assert((1u64 << 0u32) == 1) by (bit_vector);
    } else {
        lemma_lowest(mask);
        let m = drop_lowest(mask);
        lemma_shl_double(popcount(mask) as u32);
        lemma_deposit_extract(idx / 2, m);
        lemma_deposit_bits(idx, mask);
        lemma_extract_agree(deposit(idx, mask), deposit(idx / 2, m), m);
    }
}

/// `extract` looks only at the squares of the mask.
pub proof fn lemma_extract_agree(a: u64, b: u64, mask: u64)
    requires
        forall|i: int| bit(mask, i) ==> bit(a, i) == bit(b, i),
    ensures
        extract(a, mask) == extract(b, mask),
    decreases mask,
{
    if mask != 0 {
        lemma_lowest(mask);
        lemma_extract_agree(a, b, drop_lowest(mask));
    }
}

/// A subset of a mask is left unchanged by intersecting it with the mask.
pub proof fn lemma_subset_and(sub: u64, mask: u64)
    requires
        subset_of(sub, mask),
    ensures
        sub & mask == sub,
{
    lemma_bit_and(sub, mask);
    assert forall|i: int| 0 <= i < 64 implies bit(sub & mask, i) == bit(sub, i) by {
        if bit(sub, i) {
            assert(squares(sub).contains(i));
            assert(squares(mask).contains(i));
        }
    }
    lemma_bits_equal(sub & mask, sub);
}

/// The `idx`-th subset of the mask.
pub fn occupancy(idx: u64, attack_mask: BitBoard) -> (occ: BitBoard)
    ensures
        occ.0 == deposit(idx, attack_mask.0),
        subset_of(occ.0, attack_mask.0),
{
    let mut occ: u64 = 0;
    let mut mask: u64 = attack_mask.0;
    let mut rest: u64 = idx;
    proof {
        let d = deposit(rest, mask);
        assert(d == 0u64 | d) by (bit_vector);
    }
    while mask != 0
        invariant
            deposit(idx, attack_mask.0) == occ | deposit(rest, mask),
        decreases mask,
    {
        proof {
            lemma_lowest(mask);
        }
        let sq = mask.trailing_zeros();
        let ghost tail = deposit(rest / 2, drop_lowest(mask));
        let ghost low = 1u64 << (sq as u64);
        let ghost before = occ;
        if rest % 2 == 1 {
            occ |= 1u64 << sq;
            proof {
                assert((before | low) | tail == before | (tail | low)) by (bit_vector);
            }
        }
        mask &= mask - 1;
        rest = rest / 2;
    }
    proof {
        let total = occ;
        assert(total | 0u64 == total) by (bit_vector);
        lemma_deposit_bits(idx, attack_mask.0);
    }
    BitBoard(occ)
}

/// The multiplier `magic` hashes the occupancies of `mask` without any
/// collision: two different subsets of the mask never share a slot.
pub open spec fn collision_free(magic: u64, mask: u64) -> bool {
    forall|a: u64, b: u64|
        #![trigger magic_index(a, magic, popcount(mask) as u32), magic_index(b, magic, popcount(mask) as u32)]
        subset_of(a, mask) && subset_of(b, mask) && a != b ==> magic_index(
            a,
            magic,
            popcount(mask) as u32,
        ) != magic_index(b, magic, popcount(mask) as u32)
}

/// Whether `magic_num` hashes the occupancies of the mask without any
/// collision. Every occupancy is hashed in turn and its slot marked; the
/// multiplier is good when no slot is met twice, which is when all the
/// slots end up marked.
pub fn is_magic(magic_num: u64, attack_mask: BitBoard) -> (good: bool)
    requires
        1 <= popcount(attack_mask.0) <= 12,
    ensures
        good == collision_free(magic_num, attack_mask.0),
{
    let attack_bits = crate::bits::count_ones(attack_mask.0);
    let max_idx: u64 = 1u64 << attack_bits;
    assert(max_idx <= 4096) by (bit_vector)
        requires
            1 <= attack_bits <= 12,
            max_idx == 1u64 << attack_bits,
    ;
    let mut magic_idxs: Vec<u8> = Vec::new();
    let mut k: usize = 0;
    while k < 4096
        invariant
            k <= 4096,
            magic_idxs.len() == k,
            forall|i: int| 0 <= i < k ==> magic_idxs[i] == 0,
        decreases 4096 - k,
    {
        magic_idxs.push(0);
        k += 1;
    }
    let ghost mask = attack_mask.0;
    let ghost mut marked: Set<int> = Set::empty();
    let ghost mut source: Seq<u64> = Seq::new(4096, |i: int| 0u64);
    let mut idx: u64 = 0;
    let mut clash = false;
    while idx < max_idx
        invariant_except_break
            !clash,
        invariant
            mask == attack_mask.0,
            attack_bits == popcount(mask),
            1 <= attack_bits <= 12,
            max_idx == 1u64 << attack_bits,
            max_idx <= 4096,
            idx <= max_idx,
            magic_idxs.len() == 4096,
            source.len() == 4096,
            marked.finite(),
            marked.len() == idx,
            forall|x: int| marked.contains(x) <==> 0 <= x < 4096 && magic_idxs[x] != 0,
            forall|x: int| marked.contains(x) ==> 0 <= x < max_idx,
            forall|x: int|
                #[trigger] marked.contains(x) ==> source[x] < idx && magic_index(
                    deposit(source[x], mask),
                    magic_num,
                    attack_bits,
                ) == x,
            forall|e: u64|
                e < idx ==> marked.contains(
                    #[trigger] magic_index(deposit(e, mask), magic_num, attack_bits),
                ) && source[magic_index(deposit(e, mask), magic_num, attack_bits)] == e,
        ensures
            clash ==> idx < max_idx && !collision_free(magic_num, mask),
            !clash ==> idx == max_idx,
        decreases max_idx - idx,
    {
        let occupancy = occupancy(idx, attack_mask);
        let magic_idx = magic_slot(occupancy.0, magic_num, attack_bits);
        if magic_idxs[magic_idx] != 0 {
            proof {
                assert(marked.contains(magic_idx as int));
                let e = source[magic_idx as int];
                let a = deposit(e, mask);
                let b = deposit(idx, mask);
                lemma_deposit_bits(e, mask);
                lemma_deposit_bits(idx, mask);
                lemma_deposit_extract(e, mask);
                lemma_deposit_extract(idx, mask);
                assert(a != b);
                assert(magic_index(a, magic_num, popcount(mask) as u32) == magic_index(
                    b,
                    magic_num,
                    popcount(mask) as u32,
                ));
            }
            clash = true;
            break ;
        }
        magic_idxs.set(magic_idx, 1);
        proof {
            marked = marked.insert(magic_idx as int);
            source = source.update(magic_idx as int, idx);
        }
        idx += 1;
    }
    let mut good = true;
    let mut x: usize = 0;
    while x < max_idx as usize
        invariant
            x <= max_idx <= 4096,
            magic_idxs.len() == 4096,
            good == forall|i: int| 0 <= i < x ==> magic_idxs[i] != 0,
        decreases max_idx - x,
    {
        if magic_idxs[x] == 0 {
            good = false;
        }
        x += 1;
    }
    proof {
        let slots = Set::new(|i: int| 0 <= i < max_idx);
        vstd::set_lib::lemma_int_range(0, max_idx as int);
        assert(slots =~= vstd::set_lib::set_int_range(0, max_idx as int));
        if clash {
            if good {
                assert(slots.subset_of(marked));
                vstd::set_lib::lemma_len_subset(slots, marked);
            }
        } else {
            assert(marked.subset_of(slots));
            if !good {
                let i = choose|i: int| 0 <= i < max_idx && magic_idxs[i] == 0;
                assert(marked.subset_of(slots.remove(i)));
                vstd::set_lib::lemma_len_subset(marked, slots.remove(i));
            }
            assert forall|a: u64, b: u64|
                #![trigger magic_index(a, magic_num, popcount(mask) as u32), magic_index(b, magic_num, popcount(mask) as u32)]
                subset_of(a, mask) && subset_of(b, mask) && a != b implies magic_index(
                a,
                magic_num,
                popcount(mask) as u32,
            ) != magic_index(b, magic_num, popcount(mask) as u32) by {
                lemma_extract(a, mask);
                lemma_extract(b, mask);
                lemma_subset_and(a, mask);
                lemma_subset_and(b, mask);
                let ea = extract(a, mask) as u64;
                let eb = extract(b, mask) as u64;
                assert(deposit(ea, mask) == a && deposit(eb, mask) == b);
                assert(source[magic_index(a, magic_num, attack_bits)] == ea);
                assert(source[magic_index(b, magic_num, attack_bits)] == eb);
            }
        }
    }
    good
}

/// A 64-bit word from `rand`'s `Rng::gen` with the generator of the current
/// thread. Nothing is stated of the word.
#[verifier::external_body]
fn random_word() -> (word: u64) {
    rand::thread_rng().gen::<u64>()
}

/// The word made of the low 16 bits of four words, the first lowest.
pub open spec fn joined(n1: u64, n2: u64, n3: u64, n4: u64) -> u64 {
    (n1 & 0xFFFF) | ((n2 & 0xFFFF) << 16) | ((n3 & 0xFFFF) << 32) | ((n4 & 0xFFFF) << 48)
}

/// A candidate multiplier made of twelve words: each four are joined, and of
/// the three results only the bits they share are kept, which leaves few.
pub open spec fn candidate(words: Seq<u64>) -> u64 {
    joined(words[0], words[1], words[2], words[3]) & joined(words[4], words[5], words[6], words[7])
        & joined(words[8], words[9], words[10], words[11])
}

/// Computes [`candidate`].
pub fn sparse_candidate(words: &[u64; 12]) -> (magic: u64)
    ensures
        magic == candidate(words@),
{
    let a = (words[0] & 0xFFFF) | ((words[1] & 0xFFFF) << 16) | ((words[2] & 0xFFFF) << 32) | ((
    words[3] & 0xFFFF) << 48);
    let b = (words[4] & 0xFFFF) | ((words[5] & 0xFFFF) << 16) | ((words[6] & 0xFFFF) << 32) | ((
    words[7] & 0xFFFF) << 48);
    let c = (words[8] & 0xFFFF) | ((words[9] & 0xFFFF) << 16) | ((words[10] & 0xFFFF) << 32) | ((
    words[11] & 0xFFFF) << 48);
    a & b & c
}

/// A random candidate for a multiplier: what [`sparse_candidate`] makes of
/// twelve words from the random generator. Most candidates have few bits
/// set, but every word can come out, so nothing is promised of the result;
/// what comes of given words is stated by `sparse_candidate`.
pub fn random_magic() -> (magic: u64) {
    let words = [
        random_word(),
        random_word(),
        random_word(),
        random_word(),
        random_word(),
        random_word(),
        random_word(),
        random_word(),
        random_word(),
        random_word(),
        random_word(),
        random_word(),
    ];
    sparse_candidate(&words)
}

} // verus!
