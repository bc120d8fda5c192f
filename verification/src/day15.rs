//! A byte hash, and boxes of labelled lenses kept in order of arrival.

use vstd::prelude::*;
use vstd::string::StringSliceAdditionalSpecFns;
use crate::fold::{as_u32, lemma_total_grows, lemma_total_step, total};
use crate::text::{
    lemma_one_byte_number, number, parse_u32, same_bytes, slice_of, split, split_at, trim, trimmed, views,
};

verus! {

/// The hash of a byte sequence: starting from zero, each byte is added and
/// the sum multiplied by seventeen, keeping the lowest eight bits.
pub open spec fn hash_of(s: Seq<u8>) -> u8
    decreases s.len(),
{
    if s.len() == 0 {
        0
    } else {
        (((hash_of(s.drop_last()) + s.last()) * 17) % 256) as u8
    }
}

/// Computes the hash of a byte sequence.
pub fn hash(sequence: &[u8]) -> (h: u8)
    ensures
        h == hash_of(sequence@),
{
    let mut acc: u8 = 0;
    let mut i: usize = 0;
    assert(sequence@.take(0) =~= Seq::<u8>::empty());
    while i < sequence.len()
        invariant
            i <= sequence@.len(),
            acc == hash_of(sequence@.take(i as int)),
        decreases sequence@.len() - i,
    {
        let b: u8 = sequence[i];
        proof {
            assert(sequence@.take(i + 1).drop_last() =~= sequence@.take(i as int));
            assert(sequence@.take(i + 1).last() == b);
        }
        let wide: u32 = (acc as u32 + b as u32) * 17;
        acc = (wide % 256) as u8;
        i += 1;
    }
    assert(sequence@.take(i as int) =~= sequence@);
    acc
}

/// The steps of an initialisation sequence: the pieces between commas,
/// without the whitespace around them.
pub open spec fn steps(input: Seq<u8>) -> Seq<Seq<u8>> {
    let pieces = split(input, 44u8);
    Seq::new(pieces.len(), |i: int| trim(pieces[i]))
}

/// The hash of every step.
pub open spec fn step_hashes(input: Seq<u8>) -> Seq<Option<nat>> {
    Seq::new(steps(input).len(), |i: int| Some(hash_of(steps(input)[i]) as nat))
}

/// The steps of an initialisation sequence.
fn steps_of(input: &[u8]) -> (out: Vec<Vec<u8>>)
    ensures
        views(out@) == steps(input@),
{
    let pieces = split_at(input, 44);
    let mut out: Vec<Vec<u8>> = Vec::new();
    let mut i: usize = 0;
    while i < pieces.len()
        invariant
            i <= pieces@.len(),
            views(pieces@) == split(input@, 44u8),
            out@.len() == i,
            forall|k: int| 0 <= k < i ==> (#[trigger] out@[k])@ == trim(pieces@[k]@),
        decreases pieces@.len() - i,
    {
        out.push(trimmed(pieces[i].as_slice()));
        i += 1;
    }
    assert(views(out@) =~= steps(input@)) by {
        assert forall|k: int| 0 <= k < out@.len() implies views(out@)[k] == steps(input@)[k] by {
            assert(views(pieces@)[k] == pieces@[k]@);
        }
    }
    out
}

/// The sum of the hashes of all steps. `None` when the sum does not fit in
/// a `u32`.
pub fn part_one(input: &str) -> (r: Option<u32>)
    ensures
        r == as_u32(total(step_hashes(input.spec_bytes()))),
{
    let all = steps_of(input.as_bytes());
    let ghost vals = step_hashes(input.spec_bytes());
    let mut acc: u32 = 0;
    let mut i: usize = 0;
    assert(vals.take(0) =~= Seq::<Option<nat>>::empty());
    while i < all.len()
        invariant
            i <= all@.len(),
            views(all@) == steps(input.spec_bytes()),
            vals == step_hashes(input.spec_bytes()),
            total(vals.take(i as int)) == Some(acc as nat),
        decreases all@.len() - i,
    {
        proof {
            lemma_total_step(vals, i as int);
            assert(views(all@)[i as int] == all@[i as int]@);
        }
        let h: u8 = hash(all[i].as_slice());
        match acc.checked_add(h as u32) {
            Some(v) => {
                acc = v;
            },
            None => {
                proof {
                    lemma_total_grows(vals, i + 1);
                }
                return None;
            },
        }
        i += 1;
    }
    assert(vals.take(i as int) =~= vals);
    Some(acc)
}

/// A lens in a box.
pub struct Slot {
    pub label: Vec<u8>,
    pub focal_length: u32,
}

/// A lens as its label and its focal length.
pub ghost struct Lens {
    pub label: Seq<u8>,
    pub focal: u32,
}

impl Slot {
    /// The lens that this slot holds.
    pub open spec fn view(&self) -> Lens {
        Lens { label: self.label@, focal: self.focal_length }
    }
}

/// The lenses of one box, in order.
pub open spec fn lenses(b: Seq<Slot>) -> Seq<Lens> {
    Seq::new(b.len(), |i: int| b[i]@)
}

/// The lenses of all boxes.
pub open spec fn shelves(boxes: Seq<Vec<Slot>>) -> Seq<Seq<Lens>> {
    Seq::new(boxes.len(), |i: int| lenses(boxes[i]@))
}

/// The lenses of `b` whose label is not `label`, in order.
pub open spec fn without(b: Seq<Lens>, label: Seq<u8>) -> Seq<Lens>
    decreases b.len(),
{
    if b.len() == 0 {
        b
    } else if b.last().label == label {
        without(b.drop_last(), label)
    } else {
        without(b.drop_last(), label).push(b.last())
    }
}

/// Index of the first lens of `b` labelled `label`, or the length of `b`
/// when there is none.
pub open spec fn position(b: Seq<Lens>, label: Seq<u8>) -> int
    decreases b.len(),
{
    if b.len() == 0 {
        0
    } else if position(b.drop_last(), label) < b.len() - 1 {
        position(b.drop_last(), label)
    } else if b.last().label == label {
        b.len() - 1
    } else {
        b.len() as int
    }
}

/// `b` after a lens labelled `label` with focal length `focal` arrives: it
/// replaces the first lens with that label, or goes behind all others.
pub open spec fn with_lens(b: Seq<Lens>, label: Seq<u8>, focal: u32) -> Seq<Lens> {
    let at = position(b, label);
    if at < b.len() {
        b.update(at, Lens { label, focal })
    } else {
        b.push(Lens { label, focal })
    }
}

/// The boxes after one step. A step that holds a dash removes the lenses
/// labelled with all but its last byte from the box that the hash of the
/// label names. Any other step ends in an equals sign and a focal length of
/// one byte, and puts a lens into the box of its label. `None` when such a
/// step is too short or its last byte is no number.
pub open spec fn after_step(boxes: Seq<Seq<Lens>>, step: Seq<u8>) -> Option<Seq<Seq<Lens>>> {
    if step.contains(45u8) {
        let label = step.drop_last();
        let h = hash_of(label) as int;
        Some(boxes.update(h, without(boxes[h], label)))
    } else if step.len() < 2 {
        None
    } else {
        let label = step.take(step.len() - 2);
        let h = hash_of(label) as int;
        match number(step.skip(step.len() - 1)) {
            Some(f) => Some(boxes.update(h, with_lens(boxes[h], label, f as u32))),
            None => None,
        }
    }
}

/// The boxes after all steps, starting from `boxes`.
pub open spec fn after_steps(boxes: Seq<Seq<Lens>>, all: Seq<Seq<u8>>) -> Option<Seq<Seq<Lens>>>
    decreases all.len(),
{
    if all.len() == 0 {
        Some(boxes)
    } else {
        match after_steps(boxes, all.drop_last()) {
            Some(b) => after_step(b, all.last()),
            None => None,
        }
    }
}

/// 256 empty boxes.
pub open spec fn empty_shelves() -> Seq<Seq<Lens>> {
    Seq::new(256, |i: int| Seq::<Lens>::empty())
}

/// The focusing power of the first `n` lenses of box number `i`: for each
/// lens, one more than the box number times the place of the lens in the
/// box, counted from one, times its focal length.
pub open spec fn box_power(b: Seq<Lens>, i: int, n: int) -> nat
    decreases n,
{
    if n <= 0 {
        0
    } else {
        box_power(b, i, n - 1) + ((i + 1) * n * b[n - 1].focal) as nat
    }
}

/// The focusing power of the first `n` boxes.
pub open spec fn shelves_power(boxes: Seq<Seq<Lens>>, n: int) -> nat
    decreases n,
{
    if n <= 0 {
        0
    } else {
        shelves_power(boxes, n - 1) + box_power(boxes[n - 1], n - 1, boxes[n - 1].len() as int)
    }
}

/// The focusing power of the first boxes and lenses is at most that of all.
pub proof fn lemma_box_power_grows(b: Seq<Lens>, i: int, n: int, m: int)
    requires
        0 <= n <= m,
    ensures
        box_power(b, i, n) <= box_power(b, i, m),
    decreases m - n,
{
    if n < m {
        lemma_box_power_grows(b, i, n, m - 1);
    }
}

/// The focusing power of the first boxes is at most that of all.
pub proof fn lemma_shelves_power_grows(boxes: Seq<Seq<Lens>>, n: int, m: int)
    requires
        0 <= n <= m,
    ensures
        shelves_power(boxes, n) <= shelves_power(boxes, m),
    decreases m - n,
{
    if n < m {
        lemma_shelves_power_grows(boxes, n, m - 1);
    }
}

/// The focusing power of all lenses in all boxes. `None` when it does not
/// fit in a `u32`.
pub fn focusing_power(boxes: &Vec<Vec<Slot>>) -> (r: Option<u32>)
    ensures
        r == as_u32(Some(shelves_power(shelves(boxes@), boxes@.len() as int))),
{
    let ghost all = shelves(boxes@);
    let mut acc: u128 = 0;
    let mut i: usize = 0;
    while i < boxes.len()
        invariant
            i <= boxes@.len(),
            all == shelves(boxes@),
            acc == shelves_power(all, i as int),
            acc <= u32::MAX,
        decreases boxes@.len() - i,
    {
        let b = &boxes[i];
        assert(all[i as int] == lenses(b@));
        let mut j: usize = 0;
        let mut inner: u128 = 0;
        while j < b.len()
            invariant
                j <= b@.len(),
                i < boxes@.len(),
                all == shelves(boxes@),
                all[i as int] == lenses(b@),
                inner == box_power(all[i as int], i as int, j as int),
                inner <= u32::MAX,
                acc <= u32::MAX,
                acc == shelves_power(all, i as int),
            decreases b@.len() - j,
        {
            let f: u128 = b[j].focal_length as u128;
            let bi: u128 = i as u128 + 1;
            let place: u128 = j as u128 + 1;
            let ghost exact: int = (i + 1) * (j + 1) * f;
            assert(lenses(b@)[j as int].focal == f);
            assert(box_power(all[i as int], i as int, j + 1) == inner + exact as nat);
            let next: Option<u128> = if f == 0 {
                assert(exact == 0) by (nonlinear_arith)
                    requires
                        exact == (i + 1) * (j + 1) * f,
                        f == 0,
                ;
                Some(inner)
            } else if bi > 0xffff_ffff || place > 0xffff_ffff {
                assert(exact > 0xffff_ffff) by (nonlinear_arith)
                    requires
                        exact == (i + 1) * (j + 1) * f,
                        f >= 1,
                        i + 1 >= 1,
                        j + 1 >= 1,
                        i + 1 > 0xffff_ffff || j + 1 > 0xffff_ffff,
                ;
                None
            } else {
                assert(bi * place <= 0xffff_ffff * 0xffff_ffff && bi * place * f <= 0xffff_ffff * 0xffff_ffff
                    * 0xffff_ffff && bi * place * f == exact) by (nonlinear_arith)
                    requires
                        exact == (i + 1) * (j + 1) * f,
                        bi == i + 1,
                        place == j + 1,
                        1 <= bi <= 0xffff_ffff,
                        1 <= place <= 0xffff_ffff,
                        0 <= f <= 0xffff_ffff,
                ;
                let t: u128 = bi * place * f;
                if t <= 0xffff_ffff && inner + t <= 0xffff_ffff {
                    Some(inner + t)
                } else {
                    None
                }
            };
            match next {
                Some(v) => {
                    inner = v;
                },
                None => {
                    proof {
                        lemma_box_power_grows(all[i as int], i as int, j + 1, b@.len() as int);
                        lemma_shelves_power_grows(all, i + 1, boxes@.len() as int);
                    }
                    return None;
                },
            }
            j += 1;
        }
        if acc + inner > 0xffff_ffff {
            proof {
                lemma_shelves_power_grows(all, i + 1, boxes@.len() as int);
            }
            return None;
        }
        acc = acc + inner;
        i += 1;
    }
    Some(acc as u32)
}

} // verus!

verus! {

/// Removing a lens labelled `label` does not change what is left without
/// that label.
pub proof fn lemma_without_remove(b: Seq<Lens>, label: Seq<u8>, i: int)
    requires
        0 <= i < b.len(),
        b[i].label == label,
    ensures
        without(b.remove(i), label) == without(b, label),
    decreases b.len(),
{
    if i == b.len() - 1 {
        assert(b.remove(i) =~= b.drop_last());
    } else {
        lemma_without_remove(b.drop_last(), label, i);
        assert(b.remove(i).drop_last() =~= b.drop_last().remove(i));
        assert(b.remove(i).last() == b.last());
    }
}

/// Where no lens is labelled `label`, nothing is removed.
pub proof fn lemma_without_none(b: Seq<Lens>, label: Seq<u8>)
    requires
        forall|k: int| 0 <= k < b.len() ==> (#[trigger] b[k]).label != label,
    ensures
        without(b, label) == b,
    decreases b.len(),
{
    if b.len() > 0 {
        lemma_without_none(b.drop_last(), label);
        assert(b.drop_last().push(b.last()) =~= b);
    }
}

/// `position` is the first index that holds the label.
pub proof fn lemma_position(b: Seq<Lens>, label: Seq<u8>, k: int)
    requires
        0 <= k <= b.len(),
        forall|j: int| 0 <= j < k ==> (#[trigger] b[j]).label != label,
        k < b.len() ==> b[k].label == label,
    ensures
        position(b, label) == k,
    decreases b.len(),
{
    if b.len() > 0 {
        if k < b.len() - 1 {
            lemma_position(b.drop_last(), label, k);
        } else {
            lemma_position(b.drop_last(), label, b.len() - 1);
        }
    }
}

/// Removes the lenses labelled `label` from the box.
fn remove_label(b: &mut Vec<Slot>, label: &[u8])
    ensures
        lenses(final(b)@) == without(lenses(old(b)@), label@),
{
    let mut i: usize = 0;
    while i < b.len()
        invariant
            i <= b@.len(),
            forall|k: int| 0 <= k < i ==> (#[trigger] lenses(b@)[k]).label != label@,
            without(lenses(b@), label@) == without(lenses(old(b)@), label@),
        decreases b@.len() - i,
    {
        assert(lenses(b@)[i as int].label == b@[i as int].label@);
        if same_bytes(b[i].label.as_slice(), label) {
            let ghost before = lenses(b@);
            b.remove(i);
            proof {
                assert(lenses(b@) =~= before.remove(i as int));
                lemma_without_remove(before, label@, i as int);
            }
        } else {
            i += 1;
        }
    }
    proof {
        lemma_without_none(lenses(b@), label@);
    }
}

/// Puts a lens into the box: in place of the first lens with the same
/// label, or behind all others.
fn put_lens(b: &mut Vec<Slot>, label: Vec<u8>, focal: u32)
    ensures
        lenses(final(b)@) == with_lens(lenses(old(b)@), label@, focal),
{
    let mut i: usize = 0;
    while i < b.len()
        invariant
            i <= b@.len(),
            b@ == old(b)@,
            forall|k: int| 0 <= k < i ==> (#[trigger] lenses(b@)[k]).label != label@,
        decreases b@.len() - i,
    {
        assert(lenses(b@)[i as int].label == b@[i as int].label@);
        if same_bytes(b[i].label.as_slice(), label.as_slice()) {
            proof {
                lemma_position(lenses(b@), label@, i as int);
            }
            let ghost before = lenses(b@);
            b.set(i, Slot { label, focal_length: focal });
            assert(lenses(b@) =~= before.update(i as int, Lens { label: label@, focal }));
            return;
        }
        i += 1;
    }
    proof {
        lemma_position(lenses(b@), label@, b@.len() as int);
    }
    let ghost before = lenses(b@);
    b.push(Slot { label, focal_length: focal });
    assert(lenses(b@) =~= before.push(Lens { label: label@, focal }));
}

/// `step` holds a dash.
fn has_dash(step: &[u8]) -> (r: bool)
    ensures
        r == step@.contains(45u8),
{
    let mut i: usize = 0;
    while i < step.len()
        invariant
            i <= step@.len(),
            forall|k: int| 0 <= k < i ==> step@[k] != 45u8,
        decreases step@.len() - i,
    {
        if step[i] == 45 {
            return true;
        }
        i += 1;
    }
    false
}

/// Carries out one step on the boxes. Returns `false`, leaving the boxes as
/// they were, when the step cannot be read.
pub fn apply_step(boxes: &mut Vec<Vec<Slot>>, step: &[u8]) -> (ok: bool)
    requires
        old(boxes)@.len() == 256,
    ensures
        final(boxes)@.len() == 256,
        ok == after_step(shelves(old(boxes)@), step@) is Some,
        ok ==> Some(shelves(final(boxes)@)) == after_step(shelves(old(boxes)@), step@),
        !ok ==> final(boxes)@ == old(boxes)@,
{
    let ghost before = shelves(boxes@);
    if has_dash(step) {
        let label = slice_of(step, 0, step.len() - 1);
        assert(label@ =~= step@.drop_last());
        let h: usize = hash(label.as_slice()) as usize;
        let mut b: Vec<Slot> = Vec::new();
        core::mem::swap(&mut boxes[h], &mut b);
        remove_label(&mut b, label.as_slice());
        core::mem::swap(&mut boxes[h], &mut b);
        assert(shelves(boxes@) =~= before.update(h as int, without(before[h as int], label@)));
        true
    } else if step.len() < 2 {
        false
    } else {
        let label = slice_of(step, 0, step.len() - 2);
        assert(label@ =~= step@.take(step@.len() - 2));
        let last = slice_of(step, step.len() - 1, step.len());
        assert(last@ =~= step@.skip(step@.len() - 1));
        match parse_u32(last.as_slice()) {
            Some(f) => {
                let h: usize = hash(label.as_slice()) as usize;
                let mut b: Vec<Slot> = Vec::new();
                core::mem::swap(&mut boxes[h], &mut b);
                let ghost wanted = label@;
                put_lens(&mut b, label, f);
                core::mem::swap(&mut boxes[h], &mut b);
                assert(shelves(boxes@) =~= before.update(h as int, with_lens(before[h as int], wanted, f)));
                true
            },
            None => {
                proof {
                    lemma_one_byte_number(last@);
                }
                false
            },
        }
    }
}

/// The focusing power of the lenses in the boxes after all steps of the
/// input were carried out on 256 empty boxes. `None` when a step cannot be
/// read or the power does not fit in a `u32`.
pub fn part_two(input: &str) -> (r: Option<u32>)
    ensures
        r == match after_steps(empty_shelves(), steps(input.spec_bytes())) {
            Some(boxes) => as_u32(Some(shelves_power(boxes, 256))),
            None => None,
        },
{
    let all = steps_of(input.as_bytes());
    let ghost want = steps(input.spec_bytes());
    let mut boxes: Vec<Vec<Slot>> = Vec::new();
    let mut k: usize = 0;
    while k < 256
        invariant
            k <= 256,
            boxes@.len() == k,
            forall|j: int| 0 <= j < k ==> (#[trigger] boxes@[j])@.len() == 0,
        decreases 256 - k,
    {
        boxes.push(Vec::new());
        k += 1;
    }
    assert(shelves(boxes@) =~= empty_shelves()) by {
        assert forall|j: int| 0 <= j < 256 implies shelves(boxes@)[j] == Seq::<Lens>::empty() by {
            assert(lenses(boxes@[j]@) =~= Seq::<Lens>::empty());
        }
    }
    let mut i: usize = 0;
    assert(want.take(0) =~= Seq::<Seq<u8>>::empty());
    while i < all.len()
        invariant
            i <= all@.len(),
            views(all@) == want,
            want == steps(input.spec_bytes()),
            boxes@.len() == 256,
            after_steps(empty_shelves(), want.take(i as int)) == Some(shelves(boxes@)),
        decreases all@.len() - i,
    {
        proof {
            assert(want.take(i + 1).drop_last() =~= want.take(i as int));
            assert(want.take(i + 1).last() == all@[i as int]@);
        }
        if !apply_step(&mut boxes, all[i].as_slice()) {
            proof {
                lemma_steps_none(empty_shelves(), want, i + 1);
            }
            return None;
        }
        i += 1;
    }
    assert(want.take(i as int) =~= want);
    focusing_power(&boxes)
}

/// Once the steps up to `i` cannot be carried out, all steps cannot.
pub proof fn lemma_steps_none(boxes: Seq<Seq<Lens>>, all: Seq<Seq<u8>>, i: int)
    requires
        0 <= i <= all.len(),
        after_steps(boxes, all.take(i)) is None,
    ensures
        after_steps(boxes, all) is None,
    decreases all.len() - i,
{
    if i < all.len() {
        assert(all.take(i + 1).drop_last() =~= all.take(i));
        lemma_steps_none(boxes, all, i + 1);
    } else {
        assert(all.take(i) =~= all);
    }
}

} // verus!
