//! Scans the positions of one tag group that a match mask selects, with the
//! mask fixed at compile time so that each possible mask value gets a
//! loop of its own.

use vstd::prelude::*;

verus! {

/// The slot that position `i` of the group starting at `base` falls into.
pub open spec fn group_slot(base: usize, i: int, mask: usize) -> int {
    ((base + i) as usize & mask) as int
}

/// Whether bit `i` of the match mask `n` is set.
pub open spec fn mask_selects(n: u8, i: int) -> bool {
    n & (1u8 << (i as u8)) != 0
}

/// The first slot, scanning positions `from..8` of the group in order, that the
/// mask selects and whose stored hash equals `search`.
pub open spec fn first_selected_match<V>(
    n: u8,
    search: u64,
    base: usize,
    mask: usize,
    data: Seq<(u64, V)>,
    from: int,
) -> Option<int>
    decreases 8 - from,
{
    if from >= 8 {
        None
    } else if mask_selects(n, from) && data[group_slot(base, from, mask)].0 == search {
        Some(group_slot(base, from, mask))
    } else {
        first_selected_match(n, search, base, mask, data, from + 1)
    }
}

/// What a scan of the group returns: the value of the first selected slot
/// holding `search`, if any.
pub open spec fn selected_match_value<'a, V>(
    n: u8,
    search: u64,
    base: usize,
    mask: usize,
    data: &'a [(u64, V)],
) -> Option<&'a V> {
    match first_selected_match(n, search, base, mask, data@, 0) {
        Some(j) => Some(&data@[j].1),
        None => None,
    }
}

/// Scans the positions of the group starting at `base_index` whose bit is set
/// in `N`, in increasing order, and returns the value of the first one whose
/// stored hash equals `search_hash`.
pub fn const_inner_match_loop<'a, const N: u8, V>(
    search_hash: u64,
    base_index: usize,
    capacity_mask: usize,
    data: &'a [(u64, V)],
) -> (r: Option<&'a V>)
    requires
        capacity_mask < data@.len(),
        base_index + 7 <= usize::MAX,
    ensures
        r == selected_match_value(N, search_hash, base_index, capacity_mask, data),
{
    let mut i: usize = 0;
    while i < 8
        invariant
            0 <= i <= 8,
            capacity_mask < data@.len(),
            base_index + 7 <= usize::MAX,
            first_selected_match(N, search_hash, base_index, capacity_mask, data@, 0)
                == first_selected_match(N, search_hash, base_index, capacity_mask, data@, i as int),
        decreases 8 - i,
    {
        let item_index = (base_index + i) & capacity_mask;
        proof {
            crate::bit_facts::lemma_usize_mask((base_index + i) as usize, capacity_mask, 0);
        }
        if N & (1u8 << (i as u8)) != 0 {
            let item = &data[item_index];
            if item.0 == search_hash {
                return Some(&item.1);
            }
        }
        i = i + 1;
    }
    None
}

/// Runs [`const_inner_match_loop`] with `match_result` as its mask.
pub fn dispatch_const_inner_match_loop<'a, V>(
    match_result: u8,
    search_hash: u64,
    base_index: usize,
    capacity_mask: usize,
    data: &'a [(u64, V)],
) -> (r: Option<&'a V>)
    requires
        capacity_mask < data@.len(),
        base_index + 7 <= usize::MAX,
    ensures
        r == selected_match_value(match_result, search_hash, base_index, capacity_mask, data),
{
    match match_result {
        0 => const_inner_match_loop::<0, V>(search_hash, base_index, capacity_mask, data),
        1 => const_inner_match_loop::<1, V>(search_hash, base_index, capacity_mask, data),
        2 => const_inner_match_loop::<2, V>(search_hash, base_index, capacity_mask, data),
        3 => const_inner_match_loop::<3, V>(search_hash, base_index, capacity_mask, data),
        4 => const_inner_match_loop::<4, V>(search_hash, base_index, capacity_mask, data),
        5 => const_inner_match_loop::<5, V>(search_hash, base_index, capacity_mask, data),
        6 => const_inner_match_loop::<6, V>(search_hash, base_index, capacity_mask, data),
        7 => const_inner_match_loop::<7, V>(search_hash, base_index, capacity_mask, data),
        8 => const_inner_match_loop::<8, V>(search_hash, base_index, capacity_mask, data),
        9 => const_inner_match_loop::<9, V>(search_hash, base_index, capacity_mask, data),
        10 => const_inner_match_loop::<10, V>(search_hash, base_index, capacity_mask, data),
        11 => const_inner_match_loop::<11, V>(search_hash, base_index, capacity_mask, data),
        12 => const_inner_match_loop::<12, V>(search_hash, base_index, capacity_mask, data),
        13 => const_inner_match_loop::<13, V>(search_hash, base_index, capacity_mask, data),
        14 => const_inner_match_loop::<14, V>(search_hash, base_index, capacity_mask, data),
        15 => const_inner_match_loop::<15, V>(search_hash, base_index, capacity_mask, data),
        16 => const_inner_match_loop::<16, V>(search_hash, base_index, capacity_mask, data),
        17 => const_inner_match_loop::<17, V>(search_hash, base_index, capacity_mask, data),
        18 => const_inner_match_loop::<18, V>(search_hash, base_index, capacity_mask, data),
        19 => const_inner_match_loop::<19, V>(search_hash, base_index, capacity_mask, data),
        20 => const_inner_match_loop::<20, V>(search_hash, base_index, capacity_mask, data),
        21 => const_inner_match_loop::<21, V>(search_hash, base_index, capacity_mask, data),
        22 => const_inner_match_loop::<22, V>(search_hash, base_index, capacity_mask, data),
        23 => const_inner_match_loop::<23, V>(search_hash, base_index, capacity_mask, data),
        24 => const_inner_match_loop::<24, V>(search_hash, base_index, capacity_mask, data),
        25 => const_inner_match_loop::<25, V>(search_hash, base_index, capacity_mask, data),
        26 => const_inner_match_loop::<26, V>(search_hash, base_index, capacity_mask, data),
        27 => const_inner_match_loop::<27, V>(search_hash, base_index, capacity_mask, data),
        28 => const_inner_match_loop::<28, V>(search_hash, base_index, capacity_mask, data),
        29 => const_inner_match_loop::<29, V>(search_hash, base_index, capacity_mask, data),
        30 => const_inner_match_loop::<30, V>(search_hash, base_index, capacity_mask, data),
        31 => const_inner_match_loop::<31, V>(search_hash, base_index, capacity_mask, data),
        32 => const_inner_match_loop::<32, V>(search_hash, base_index, capacity_mask, data),
        33 => const_inner_match_loop::<33, V>(search_hash, base_index, capacity_mask, data),
        34 => const_inner_match_loop::<34, V>(search_hash, base_index, capacity_mask, data),
        35 => const_inner_match_loop::<35, V>(search_hash, base_index, capacity_mask, data),
        36 => const_inner_match_loop::<36, V>(search_hash, base_index, capacity_mask, data),
        37 => const_inner_match_loop::<37, V>(search_hash, base_index, capacity_mask, data),
        38 => const_inner_match_loop::<38, V>(search_hash, base_index, capacity_mask, data),
        39 => const_inner_match_loop::<39, V>(search_hash, base_index, capacity_mask, data),
        40 => const_inner_match_loop::<40, V>(search_hash, base_index, capacity_mask, data),
        41 => const_inner_match_loop::<41, V>(search_hash, base_index, capacity_mask, data),
        42 => const_inner_match_loop::<42, V>(search_hash, base_index, capacity_mask, data),
        43 => const_inner_match_loop::<43, V>(search_hash, base_index, capacity_mask, data),
        44 => const_inner_match_loop::<44, V>(search_hash, base_index, capacity_mask, data),
        45 => const_inner_match_loop::<45, V>(search_hash, base_index, capacity_mask, data),
        46 => const_inner_match_loop::<46, V>(search_hash, base_index, capacity_mask, data),
        47 => const_inner_match_loop::<47, V>(search_hash, base_index, capacity_mask, data),
        48 => const_inner_match_loop::<48, V>(search_hash, base_index, capacity_mask, data),
        49 => const_inner_match_loop::<49, V>(search_hash, base_index, capacity_mask, data),
        50 => const_inner_match_loop::<50, V>(search_hash, base_index, capacity_mask, data),
        51 => const_inner_match_loop::<51, V>(search_hash, base_index, capacity_mask, data),
        52 => const_inner_match_loop::<52, V>(search_hash, base_index, capacity_mask, data),
        53 => const_inner_match_loop::<53, V>(search_hash, base_index, capacity_mask, data),
        54 => const_inner_match_loop::<54, V>(search_hash, base_index, capacity_mask, data),
        55 => const_inner_match_loop::<55, V>(search_hash, base_index, capacity_mask, data),
        56 => const_inner_match_loop::<56, V>(search_hash, base_index, capacity_mask, data),
        57 => const_inner_match_loop::<57, V>(search_hash, base_index, capacity_mask, data),
        58 => const_inner_match_loop::<58, V>(search_hash, base_index, capacity_mask, data),
        59 => const_inner_match_loop::<59, V>(search_hash, base_index, capacity_mask, data),
        60 => const_inner_match_loop::<60, V>(search_hash, base_index, capacity_mask, data),
        61 => const_inner_match_loop::<61, V>(search_hash, base_index, capacity_mask, data),
        62 => const_inner_match_loop::<62, V>(search_hash, base_index, capacity_mask, data),
        63 => const_inner_match_loop::<63, V>(search_hash, base_index, capacity_mask, data),
        64 => const_inner_match_loop::<64, V>(search_hash, base_index, capacity_mask, data),
        65 => const_inner_match_loop::<65, V>(search_hash, base_index, capacity_mask, data),
        66 => const_inner_match_loop::<66, V>(search_hash, base_index, capacity_mask, data),
        67 => const_inner_match_loop::<67, V>(search_hash, base_index, capacity_mask, data),
        68 => const_inner_match_loop::<68, V>(search_hash, base_index, capacity_mask, data),
        69 => const_inner_match_loop::<69, V>(search_hash, base_index, capacity_mask, data),
        70 => const_inner_match_loop::<70, V>(search_hash, base_index, capacity_mask, data),
        71 => const_inner_match_loop::<71, V>(search_hash, base_index, capacity_mask, data),
        72 => const_inner_match_loop::<72, V>(search_hash, base_index, capacity_mask, data),
        73 => const_inner_match_loop::<73, V>(search_hash, base_index, capacity_mask, data),
        74 => const_inner_match_loop::<74, V>(search_hash, base_index, capacity_mask, data),
        75 => const_inner_match_loop::<75, V>(search_hash, base_index, capacity_mask, data),
        76 => const_inner_match_loop::<76, V>(search_hash, base_index, capacity_mask, data),
        77 => const_inner_match_loop::<77, V>(search_hash, base_index, capacity_mask, data),
        78 => const_inner_match_loop::<78, V>(search_hash, base_index, capacity_mask, data),
        79 => const_inner_match_loop::<79, V>(search_hash, base_index, capacity_mask, data),
        80 => const_inner_match_loop::<80, V>(search_hash, base_index, capacity_mask, data),
        81 => const_inner_match_loop::<81, V>(search_hash, base_index, capacity_mask, data),
        82 => const_inner_match_loop::<82, V>(search_hash, base_index, capacity_mask, data),
        83 => const_inner_match_loop::<83, V>(search_hash, base_index, capacity_mask, data),
        84 => const_inner_match_loop::<84, V>(search_hash, base_index, capacity_mask, data),
        85 => const_inner_match_loop::<85, V>(search_hash, base_index, capacity_mask, data),
        86 => const_inner_match_loop::<86, V>(search_hash, base_index, capacity_mask, data),
        87 => const_inner_match_loop::<87, V>(search_hash, base_index, capacity_mask, data),
        88 => const_inner_match_loop::<88, V>(search_hash, base_index, capacity_mask, data),
        89 => const_inner_match_loop::<89, V>(search_hash, base_index, capacity_mask, data),
        90 => const_inner_match_loop::<90, V>(search_hash, base_index, capacity_mask, data),
        91 => const_inner_match_loop::<91, V>(search_hash, base_index, capacity_mask, data),
        92 => const_inner_match_loop::<92, V>(search_hash, base_index, capacity_mask, data),
        93 => const_inner_match_loop::<93, V>(search_hash, base_index, capacity_mask, data),
        94 => const_inner_match_loop::<94, V>(search_hash, base_index, capacity_mask, data),
        95 => const_inner_match_loop::<95, V>(search_hash, base_index, capacity_mask, data),
        96 => const_inner_match_loop::<96, V>(search_hash, base_index, capacity_mask, data),
        97 => const_inner_match_loop::<97, V>(search_hash, base_index, capacity_mask, data),
        98 => const_inner_match_loop::<98, V>(search_hash, base_index, capacity_mask, data),
        99 => const_inner_match_loop::<99, V>(search_hash, base_index, capacity_mask, data),
        100 => const_inner_match_loop::<100, V>(search_hash, base_index, capacity_mask, data),
        101 => const_inner_match_loop::<101, V>(search_hash, base_index, capacity_mask, data),
        102 => const_inner_match_loop::<102, V>(search_hash, base_index, capacity_mask, data),
        103 => const_inner_match_loop::<103, V>(search_hash, base_index, capacity_mask, data),
        104 => const_inner_match_loop::<104, V>(search_hash, base_index, capacity_mask, data),
        105 => const_inner_match_loop::<105, V>(search_hash, base_index, capacity_mask, data),
        106 => const_inner_match_loop::<106, V>(search_hash, base_index, capacity_mask, data),
        107 => const_inner_match_loop::<107, V>(search_hash, base_index, capacity_mask, data),
        108 => const_inner_match_loop::<108, V>(search_hash, base_index, capacity_mask, data),
        109 => const_inner_match_loop::<109, V>(search_hash, base_index, capacity_mask, data),
        110 => const_inner_match_loop::<110, V>(search_hash, base_index, capacity_mask, data),
        111 => const_inner_match_loop::<111, V>(search_hash, base_index, capacity_mask, data),
        112 => const_inner_match_loop::<112, V>(search_hash, base_index, capacity_mask, data),
        113 => const_inner_match_loop::<113, V>(search_hash, base_index, capacity_mask, data),
        114 => const_inner_match_loop::<114, V>(search_hash, base_index, capacity_mask, data),
        115 => const_inner_match_loop::<115, V>(search_hash, base_index, capacity_mask, data),
        116 => const_inner_match_loop::<116, V>(search_hash, base_index, capacity_mask, data),
        117 => const_inner_match_loop::<117, V>(search_hash, base_index, capacity_mask, data),
        118 => const_inner_match_loop::<118, V>(search_hash, base_index, capacity_mask, data),
        119 => const_inner_match_loop::<119, V>(search_hash, base_index, capacity_mask, data),
        120 => const_inner_match_loop::<120, V>(search_hash, base_index, capacity_mask, data),
        121 => const_inner_match_loop::<121, V>(search_hash, base_index, capacity_mask, data),
        122 => const_inner_match_loop::<122, V>(search_hash, base_index, capacity_mask, data),
        123 => const_inner_match_loop::<123, V>(search_hash, base_index, capacity_mask, data),
        124 => const_inner_match_loop::<124, V>(search_hash, base_index, capacity_mask, data),
        125 => const_inner_match_loop::<125, V>(search_hash, base_index, capacity_mask, data),
        126 => const_inner_match_loop::<126, V>(search_hash, base_index, capacity_mask, data),
        127 => const_inner_match_loop::<127, V>(search_hash, base_index, capacity_mask, data),
        128 => const_inner_match_loop::<128, V>(search_hash, base_index, capacity_mask, data),
        129 => const_inner_match_loop::<129, V>(search_hash, base_index, capacity_mask, data),
        130 => const_inner_match_loop::<130, V>(search_hash, base_index, capacity_mask, data),
        131 => const_inner_match_loop::<131, V>(search_hash, base_index, capacity_mask, data),
        132 => const_inner_match_loop::<132, V>(search_hash, base_index, capacity_mask, data),
        133 => const_inner_match_loop::<133, V>(search_hash, base_index, capacity_mask, data),
        134 => const_inner_match_loop::<134, V>(search_hash, base_index, capacity_mask, data),
        135 => const_inner_match_loop::<135, V>(search_hash, base_index, capacity_mask, data),
        136 => const_inner_match_loop::<136, V>(search_hash, base_index, capacity_mask, data),
        137 => const_inner_match_loop::<137, V>(search_hash, base_index, capacity_mask, data),
        138 => const_inner_match_loop::<138, V>(search_hash, base_index, capacity_mask, data),
        139 => const_inner_match_loop::<139, V>(search_hash, base_index, capacity_mask, data),
        140 => const_inner_match_loop::<140, V>(search_hash, base_index, capacity_mask, data),
        141 => const_inner_match_loop::<141, V>(search_hash, base_index, capacity_mask, data),
        142 => const_inner_match_loop::<142, V>(search_hash, base_index, capacity_mask, data),
        143 => const_inner_match_loop::<143, V>(search_hash, base_index, capacity_mask, data),
        144 => const_inner_match_loop::<144, V>(search_hash, base_index, capacity_mask, data),
        145 => const_inner_match_loop::<145, V>(search_hash, base_index, capacity_mask, data),
        146 => const_inner_match_loop::<146, V>(search_hash, base_index, capacity_mask, data),
        147 => const_inner_match_loop::<147, V>(search_hash, base_index, capacity_mask, data),
        148 => const_inner_match_loop::<148, V>(search_hash, base_index, capacity_mask, data),
        149 => const_inner_match_loop::<149, V>(search_hash, base_index, capacity_mask, data),
        150 => const_inner_match_loop::<150, V>(search_hash, base_index, capacity_mask, data),
        151 => const_inner_match_loop::<151, V>(search_hash, base_index, capacity_mask, data),
        152 => const_inner_match_loop::<152, V>(search_hash, base_index, capacity_mask, data),
        153 => const_inner_match_loop::<153, V>(search_hash, base_index, capacity_mask, data),
        154 => const_inner_match_loop::<154, V>(search_hash, base_index, capacity_mask, data),
        155 => const_inner_match_loop::<155, V>(search_hash, base_index, capacity_mask, data),
        156 => const_inner_match_loop::<156, V>(search_hash, base_index, capacity_mask, data),
        157 => const_inner_match_loop::<157, V>(search_hash, base_index, capacity_mask, data),
        158 => const_inner_match_loop::<158, V>(search_hash, base_index, capacity_mask, data),
        159 => const_inner_match_loop::<159, V>(search_hash, base_index, capacity_mask, data),
        160 => const_inner_match_loop::<160, V>(search_hash, base_index, capacity_mask, data),
        161 => const_inner_match_loop::<161, V>(search_hash, base_index, capacity_mask, data),
        162 => const_inner_match_loop::<162, V>(search_hash, base_index, capacity_mask, data),
        163 => const_inner_match_loop::<163, V>(search_hash, base_index, capacity_mask, data),
        164 => const_inner_match_loop::<164, V>(search_hash, base_index, capacity_mask, data),
        165 => const_inner_match_loop::<165, V>(search_hash, base_index, capacity_mask, data),
        166 => const_inner_match_loop::<166, V>(search_hash, base_index, capacity_mask, data),
        167 => const_inner_match_loop::<167, V>(search_hash, base_index, capacity_mask, data),
        168 => const_inner_match_loop::<168, V>(search_hash, base_index, capacity_mask, data),
        169 => const_inner_match_loop::<169, V>(search_hash, base_index, capacity_mask, data),
        170 => const_inner_match_loop::<170, V>(search_hash, base_index, capacity_mask, data),
        171 => const_inner_match_loop::<171, V>(search_hash, base_index, capacity_mask, data),
        172 => const_inner_match_loop::<172, V>(search_hash, base_index, capacity_mask, data),
        173 => const_inner_match_loop::<173, V>(search_hash, base_index, capacity_mask, data),
        174 => const_inner_match_loop::<174, V>(search_hash, base_index, capacity_mask, data),
        175 => const_inner_match_loop::<175, V>(search_hash, base_index, capacity_mask, data),
        176 => const_inner_match_loop::<176, V>(search_hash, base_index, capacity_mask, data),
        177 => const_inner_match_loop::<177, V>(search_hash, base_index, capacity_mask, data),
        178 => const_inner_match_loop::<178, V>(search_hash, base_index, capacity_mask, data),
        179 => const_inner_match_loop::<179, V>(search_hash, base_index, capacity_mask, data),
        180 => const_inner_match_loop::<180, V>(search_hash, base_index, capacity_mask, data),
        181 => const_inner_match_loop::<181, V>(search_hash, base_index, capacity_mask, data),
        182 => const_inner_match_loop::<182, V>(search_hash, base_index, capacity_mask, data),
        183 => const_inner_match_loop::<183, V>(search_hash, base_index, capacity_mask, data),
        184 => const_inner_match_loop::<184, V>(search_hash, base_index, capacity_mask, data),
        185 => const_inner_match_loop::<185, V>(search_hash, base_index, capacity_mask, data),
        186 => const_inner_match_loop::<186, V>(search_hash, base_index, capacity_mask, data),
        187 => const_inner_match_loop::<187, V>(search_hash, base_index, capacity_mask, data),
        188 => const_inner_match_loop::<188, V>(search_hash, base_index, capacity_mask, data),
        189 => const_inner_match_loop::<189, V>(search_hash, base_index, capacity_mask, data),
        190 => const_inner_match_loop::<190, V>(search_hash, base_index, capacity_mask, data),
        191 => const_inner_match_loop::<191, V>(search_hash, base_index, capacity_mask, data),
        192 => const_inner_match_loop::<192, V>(search_hash, base_index, capacity_mask, data),
        193 => const_inner_match_loop::<193, V>(search_hash, base_index, capacity_mask, data),
        194 => const_inner_match_loop::<194, V>(search_hash, base_index, capacity_mask, data),
        195 => const_inner_match_loop::<195, V>(search_hash, base_index, capacity_mask, data),
        196 => const_inner_match_loop::<196, V>(search_hash, base_index, capacity_mask, data),
        197 => const_inner_match_loop::<197, V>(search_hash, base_index, capacity_mask, data),
        198 => const_inner_match_loop::<198, V>(search_hash, base_index, capacity_mask, data),
        199 => const_inner_match_loop::<199, V>(search_hash, base_index, capacity_mask, data),
        200 => const_inner_match_loop::<200, V>(search_hash, base_index, capacity_mask, data),
        201 => const_inner_match_loop::<201, V>(search_hash, base_index, capacity_mask, data),
        202 => const_inner_match_loop::<202, V>(search_hash, base_index, capacity_mask, data),
        203 => const_inner_match_loop::<203, V>(search_hash, base_index, capacity_mask, data),
        204 => const_inner_match_loop::<204, V>(search_hash, base_index, capacity_mask, data),
        205 => const_inner_match_loop::<205, V>(search_hash, base_index, capacity_mask, data),
        206 => const_inner_match_loop::<206, V>(search_hash, base_index, capacity_mask, data),
        207 => const_inner_match_loop::<207, V>(search_hash, base_index, capacity_mask, data),
        208 => const_inner_match_loop::<208, V>(search_hash, base_index, capacity_mask, data),
        209 => const_inner_match_loop::<209, V>(search_hash, base_index, capacity_mask, data),
        210 => const_inner_match_loop::<210, V>(search_hash, base_index, capacity_mask, data),
        211 => const_inner_match_loop::<211, V>(search_hash, base_index, capacity_mask, data),
        212 => const_inner_match_loop::<212, V>(search_hash, base_index, capacity_mask, data),
        213 => const_inner_match_loop::<213, V>(search_hash, base_index, capacity_mask, data),
        214 => const_inner_match_loop::<214, V>(search_hash, base_index, capacity_mask, data),
        215 => const_inner_match_loop::<215, V>(search_hash, base_index, capacity_mask, data),
        216 => const_inner_match_loop::<216, V>(search_hash, base_index, capacity_mask, data),
        217 => const_inner_match_loop::<217, V>(search_hash, base_index, capacity_mask, data),
        218 => const_inner_match_loop::<218, V>(search_hash, base_index, capacity_mask, data),
        219 => const_inner_match_loop::<219, V>(search_hash, base_index, capacity_mask, data),
        220 => const_inner_match_loop::<220, V>(search_hash, base_index, capacity_mask, data),
        221 => const_inner_match_loop::<221, V>(search_hash, base_index, capacity_mask, data),
        222 => const_inner_match_loop::<222, V>(search_hash, base_index, capacity_mask, data),
        223 => const_inner_match_loop::<223, V>(search_hash, base_index, capacity_mask, data),
        224 => const_inner_match_loop::<224, V>(search_hash, base_index, capacity_mask, data),
        225 => const_inner_match_loop::<225, V>(search_hash, base_index, capacity_mask, data),
        226 => const_inner_match_loop::<226, V>(search_hash, base_index, capacity_mask, data),
        227 => const_inner_match_loop::<227, V>(search_hash, base_index, capacity_mask, data),
        228 => const_inner_match_loop::<228, V>(search_hash, base_index, capacity_mask, data),
        229 => const_inner_match_loop::<229, V>(search_hash, base_index, capacity_mask, data),
        230 => const_inner_match_loop::<230, V>(search_hash, base_index, capacity_mask, data),
        231 => const_inner_match_loop::<231, V>(search_hash, base_index, capacity_mask, data),
        232 => const_inner_match_loop::<232, V>(search_hash, base_index, capacity_mask, data),
        233 => const_inner_match_loop::<233, V>(search_hash, base_index, capacity_mask, data),
        234 => const_inner_match_loop::<234, V>(search_hash, base_index, capacity_mask, data),
        235 => const_inner_match_loop::<235, V>(search_hash, base_index, capacity_mask, data),
        236 => const_inner_match_loop::<236, V>(search_hash, base_index, capacity_mask, data),
        237 => const_inner_match_loop::<237, V>(search_hash, base_index, capacity_mask, data),
        238 => const_inner_match_loop::<238, V>(search_hash, base_index, capacity_mask, data),
        239 => const_inner_match_loop::<239, V>(search_hash, base_index, capacity_mask, data),
        240 => const_inner_match_loop::<240, V>(search_hash, base_index, capacity_mask, data),
        241 => const_inner_match_loop::<241, V>(search_hash, base_index, capacity_mask, data),
        242 => const_inner_match_loop::<242, V>(search_hash, base_index, capacity_mask, data),
        243 => const_inner_match_loop::<243, V>(search_hash, base_index, capacity_mask, data),
        244 => const_inner_match_loop::<244, V>(search_hash, base_index, capacity_mask, data),
        245 => const_inner_match_loop::<245, V>(search_hash, base_index, capacity_mask, data),
        246 => const_inner_match_loop::<246, V>(search_hash, base_index, capacity_mask, data),
        247 => const_inner_match_loop::<247, V>(search_hash, base_index, capacity_mask, data),
        248 => const_inner_match_loop::<248, V>(search_hash, base_index, capacity_mask, data),
        249 => const_inner_match_loop::<249, V>(search_hash, base_index, capacity_mask, data),
        250 => const_inner_match_loop::<250, V>(search_hash, base_index, capacity_mask, data),
        251 => const_inner_match_loop::<251, V>(search_hash, base_index, capacity_mask, data),
        252 => const_inner_match_loop::<252, V>(search_hash, base_index, capacity_mask, data),
        253 => const_inner_match_loop::<253, V>(search_hash, base_index, capacity_mask, data),
        254 => const_inner_match_loop::<254, V>(search_hash, base_index, capacity_mask, data),
        255 => const_inner_match_loop::<255, V>(search_hash, base_index, capacity_mask, data),
    }
}

} // verus!
