use ruint::{DivisionByZero, Uint};

#[test]
fn add_sub_7_bits() {
    let a = Uint::<7, 1>::from_limbs([0x10]);
    let b = Uint::<7, 1>::from_limbs([0xc]);
    assert_eq!(a.overflowing_add(b), (Uint::<7, 1>::from_limbs([0x1c]), false));
    assert_eq!(a.wrapping_add(b), Uint::<7, 1>::from_limbs([0x1c]));
    assert_eq!(a.checked_add(b), Some(Uint::<7, 1>::from_limbs([0x1c])));
    assert_eq!(a.saturating_add(b), Uint::<7, 1>::from_limbs([0x1c]));
    assert_eq!(a.overflowing_sub(b), (Uint::<7, 1>::from_limbs([0x4]), false));
    assert_eq!(a.wrapping_sub(b), Uint::<7, 1>::from_limbs([0x4]));
    assert_eq!(a.checked_sub(b), Some(Uint::<7, 1>::from_limbs([0x4])));
    assert_eq!(a.saturating_sub(b), Uint::<7, 1>::from_limbs([0x4]));
    let a = Uint::<7, 1>::from_limbs([0x7f]);
    let b = Uint::<7, 1>::from_limbs([0x0]);
    assert_eq!(a.overflowing_add(b), (Uint::<7, 1>::from_limbs([0x7f]), false));
    assert_eq!(a.wrapping_add(b), Uint::<7, 1>::from_limbs([0x7f]));
    assert_eq!(a.checked_add(b), Some(Uint::<7, 1>::from_limbs([0x7f])));
    assert_eq!(a.saturating_add(b), Uint::<7, 1>::from_limbs([0x7f]));
    assert_eq!(a.overflowing_sub(b), (Uint::<7, 1>::from_limbs([0x7f]), false));
    assert_eq!(a.wrapping_sub(b), Uint::<7, 1>::from_limbs([0x7f]));
    assert_eq!(a.checked_sub(b), Some(Uint::<7, 1>::from_limbs([0x7f])));
    assert_eq!(a.saturating_sub(b), Uint::<7, 1>::from_limbs([0x7f]));
    let a = Uint::<7, 1>::from_limbs([0x7f]);
    let b = Uint::<7, 1>::from_limbs([0x1]);
    assert_eq!(a.overflowing_add(b), (Uint::<7, 1>::from_limbs([0x0]), true));
    assert_eq!(a.wrapping_add(b), Uint::<7, 1>::from_limbs([0x0]));
    assert_eq!(a.checked_add(b), None);
    assert_eq!(a.saturating_add(b), Uint::<7, 1>::from_limbs([0x7f]));
    assert_eq!(a.overflowing_sub(b), (Uint::<7, 1>::from_limbs([0x7e]), false));
    assert_eq!(a.wrapping_sub(b), Uint::<7, 1>::from_limbs([0x7e]));
    assert_eq!(a.checked_sub(b), Some(Uint::<7, 1>::from_limbs([0x7e])));
    assert_eq!(a.saturating_sub(b), Uint::<7, 1>::from_limbs([0x7e]));
    let a = Uint::<7, 1>::from_limbs([0x0]);
    let b = Uint::<7, 1>::from_limbs([0x7f]);
    assert_eq!(a.overflowing_add(b), (Uint::<7, 1>::from_limbs([0x7f]), false));
    assert_eq!(a.wrapping_add(b), Uint::<7, 1>::from_limbs([0x7f]));
    assert_eq!(a.checked_add(b), Some(Uint::<7, 1>::from_limbs([0x7f])));
    assert_eq!(a.saturating_add(b), Uint::<7, 1>::from_limbs([0x7f]));
    assert_eq!(a.overflowing_sub(b), (Uint::<7, 1>::from_limbs([0x1]), true));
    assert_eq!(a.wrapping_sub(b), Uint::<7, 1>::from_limbs([0x1]));
    assert_eq!(a.checked_sub(b), None);
    assert_eq!(a.saturating_sub(b), Uint::<7, 1>::from_limbs([0x0]));
}

#[test]
fn add_sub_64_bits() {
    let a = Uint::<64, 1>::from_limbs([0x2]);
    let b = Uint::<64, 1>::from_limbs([0x207473b706e7df8e]);
    assert_eq!(a.overflowing_add(b), (Uint::<64, 1>::from_limbs([0x207473b706e7df90]), false));
    assert_eq!(a.wrapping_add(b), Uint::<64, 1>::from_limbs([0x207473b706e7df90]));
    assert_eq!(a.checked_add(b), Some(Uint::<64, 1>::from_limbs([0x207473b706e7df90])));
    assert_eq!(a.saturating_add(b), Uint::<64, 1>::from_limbs([0x207473b706e7df90]));
    assert_eq!(a.overflowing_sub(b), (Uint::<64, 1>::from_limbs([0xdf8b8c48f9182074]), true));
    assert_eq!(a.wrapping_sub(b), Uint::<64, 1>::from_limbs([0xdf8b8c48f9182074]));
    assert_eq!(a.checked_sub(b), None);
    assert_eq!(a.saturating_sub(b), Uint::<64, 1>::from_limbs([0x0]));
    let a = Uint::<64, 1>::from_limbs([0x2e09e4b8]);
    let b = Uint::<64, 1>::from_limbs([0xfffffffffffc1f0b]);
    assert_eq!(a.overflowing_add(b), (Uint::<64, 1>::from_limbs([0x2e0603c3]), true));
    assert_eq!(a.wrapping_add(b), Uint::<64, 1>::from_limbs([0x2e0603c3]));
    assert_eq!(a.checked_add(b), None);
    assert_eq!(a.saturating_add(b), Uint::<64, 1>::from_limbs([0xffffffffffffffff]));
    assert_eq!(a.overflowing_sub(b), (Uint::<64, 1>::from_limbs([0x2e0dc5ad]), true));
    assert_eq!(a.wrapping_sub(b), Uint::<64, 1>::from_limbs([0x2e0dc5ad]));
    assert_eq!(a.checked_sub(b), None);
    assert_eq!(a.saturating_sub(b), Uint::<64, 1>::from_limbs([0x0]));
    let a = Uint::<64, 1>::from_limbs([0xffffffffffffffff]);
    let b = Uint::<64, 1>::from_limbs([0x1]);
    assert_eq!(a.overflowing_add(b), (Uint::<64, 1>::from_limbs([0x0]), true));
    assert_eq!(a.wrapping_add(b), Uint::<64, 1>::from_limbs([0x0]));
    assert_eq!(a.checked_add(b), None);
    assert_eq!(a.saturating_add(b), Uint::<64, 1>::from_limbs([0xffffffffffffffff]));
    assert_eq!(a.overflowing_sub(b), (Uint::<64, 1>::from_limbs([0xfffffffffffffffe]), false));
    assert_eq!(a.wrapping_sub(b), Uint::<64, 1>::from_limbs([0xfffffffffffffffe]));
    assert_eq!(a.checked_sub(b), Some(Uint::<64, 1>::from_limbs([0xfffffffffffffffe])));
    assert_eq!(a.saturating_sub(b), Uint::<64, 1>::from_limbs([0xfffffffffffffffe]));
    let a = Uint::<64, 1>::from_limbs([0x0]);
    let b = Uint::<64, 1>::from_limbs([0xffffffffffffffff]);
    assert_eq!(a.overflowing_add(b), (Uint::<64, 1>::from_limbs([0xffffffffffffffff]), false));
    assert_eq!(a.wrapping_add(b), Uint::<64, 1>::from_limbs([0xffffffffffffffff]));
    assert_eq!(a.checked_add(b), Some(Uint::<64, 1>::from_limbs([0xffffffffffffffff])));
    assert_eq!(a.saturating_add(b), Uint::<64, 1>::from_limbs([0xffffffffffffffff]));
    assert_eq!(a.overflowing_sub(b), (Uint::<64, 1>::from_limbs([0x1]), true));
    assert_eq!(a.wrapping_sub(b), Uint::<64, 1>::from_limbs([0x1]));
    assert_eq!(a.checked_sub(b), None);
    assert_eq!(a.saturating_sub(b), Uint::<64, 1>::from_limbs([0x0]));
}

#[test]
fn add_sub_65_bits() {
    let a = Uint::<65, 2>::from_limbs([0xb7c03984, 0x0]);
    let b = Uint::<65, 2>::from_limbs([0xdd1775a9, 0x0]);
    assert_eq!(a.overflowing_add(b), (Uint::<65, 2>::from_limbs([0x194d7af2d, 0x0]), false));
    assert_eq!(a.wrapping_add(b), Uint::<65, 2>::from_limbs([0x194d7af2d, 0x0]));
    assert_eq!(a.checked_add(b), Some(Uint::<65, 2>::from_limbs([0x194d7af2d, 0x0])));
    assert_eq!(a.saturating_add(b), Uint::<65, 2>::from_limbs([0x194d7af2d, 0x0]));
    assert_eq!(a.overflowing_sub(b), (Uint::<65, 2>::from_limbs([0xffffffffdaa8c3db, 0x1]), true));
    assert_eq!(a.wrapping_sub(b), Uint::<65, 2>::from_limbs([0xffffffffdaa8c3db, 0x1]));
    assert_eq!(a.checked_sub(b), None);
    assert_eq!(a.saturating_sub(b), Uint::<65, 2>::from_limbs([0x0, 0x0]));
    let a = Uint::<65, 2>::from_limbs([0xe88f40a2, 0x0]);
    let b = Uint::<65, 2>::from_limbs([0x1d348c, 0x0]);
    assert_eq!(a.overflowing_add(b), (Uint::<65, 2>::from_limbs([0xe8ac752e, 0x0]), false));
    assert_eq!(a.wrapping_add(b), Uint::<65, 2>::from_limbs([0xe8ac752e, 0x0]));
    assert_eq!(a.checked_add(b), Some(Uint::<65, 2>::from_limbs([0xe8ac752e, 0x0])));
    assert_eq!(a.saturating_add(b), Uint::<65, 2>::from_limbs([0xe8ac752e, 0x0]));
    assert_eq!(a.overflowing_sub(b), (Uint::<65, 2>::from_limbs([0xe8720c16, 0x0]), false));
    assert_eq!(a.wrapping_sub(b), Uint::<65, 2>::from_limbs([0xe8720c16, 0x0]));
    assert_eq!(a.checked_sub(b), Some(Uint::<65, 2>::from_limbs([0xe8720c16, 0x0])));
    assert_eq!(a.saturating_sub(b), Uint::<65, 2>::from_limbs([0xe8720c16, 0x0]));
    let a = Uint::<65, 2>::from_limbs([0xffffffffffffffff, 0x1]);
    let b = Uint::<65, 2>::from_limbs([0x1, 0x0]);
    assert_eq!(a.overflowing_add(b), (Uint::<65, 2>::from_limbs([0x0, 0x0]), true));
    assert_eq!(a.wrapping_add(b), Uint::<65, 2>::from_limbs([0x0, 0x0]));
    assert_eq!(a.checked_add(b), None);
    assert_eq!(a.saturating_add(b), Uint::<65, 2>::from_limbs([0xffffffffffffffff, 0x1]));
    assert_eq!(a.overflowing_sub(b), (Uint::<65, 2>::from_limbs([0xfffffffffffffffe, 0x1]), false));
    assert_eq!(a.wrapping_sub(b), Uint::<65, 2>::from_limbs([0xfffffffffffffffe, 0x1]));
    assert_eq!(a.checked_sub(b), Some(Uint::<65, 2>::from_limbs([0xfffffffffffffffe, 0x1])));
    assert_eq!(a.saturating_sub(b), Uint::<65, 2>::from_limbs([0xfffffffffffffffe, 0x1]));
    let a = Uint::<65, 2>::from_limbs([0x0, 0x0]);
    let b = Uint::<65, 2>::from_limbs([0xffffffffffffffff, 0x1]);
    assert_eq!(a.overflowing_add(b), (Uint::<65, 2>::from_limbs([0xffffffffffffffff, 0x1]), false));
    assert_eq!(a.wrapping_add(b), Uint::<65, 2>::from_limbs([0xffffffffffffffff, 0x1]));
    assert_eq!(a.checked_add(b), Some(Uint::<65, 2>::from_limbs([0xffffffffffffffff, 0x1])));
    assert_eq!(a.saturating_add(b), Uint::<65, 2>::from_limbs([0xffffffffffffffff, 0x1]));
    assert_eq!(a.overflowing_sub(b), (Uint::<65, 2>::from_limbs([0x1, 0x0]), true));
    assert_eq!(a.wrapping_sub(b), Uint::<65, 2>::from_limbs([0x1, 0x0]));
    assert_eq!(a.checked_sub(b), None);
    assert_eq!(a.saturating_sub(b), Uint::<65, 2>::from_limbs([0x0, 0x0]));
}

#[test]
fn add_sub_128_bits() {
    let a = Uint::<128, 2>::from_limbs([0xe429392b51a7e36e, 0x84492cd42b1141d6]);
    let b = Uint::<128, 2>::from_limbs([0xfffffe9353f1c92a, 0xffffffffffffffff]);
    assert_eq!(a.overflowing_add(b), (Uint::<128, 2>::from_limbs([0xe42937bea599ac98, 0x84492cd42b1141d6]), true));
    assert_eq!(a.wrapping_add(b), Uint::<128, 2>::from_limbs([0xe42937bea599ac98, 0x84492cd42b1141d6]));
    assert_eq!(a.checked_add(b), None);
    assert_eq!(a.saturating_add(b), Uint::<128, 2>::from_limbs([0xffffffffffffffff, 0xffffffffffffffff]));
    assert_eq!(a.overflowing_sub(b), (Uint::<128, 2>::from_limbs([0xe4293a97fdb61a44, 0x84492cd42b1141d6]), true));
    assert_eq!(a.wrapping_sub(b), Uint::<128, 2>::from_limbs([0xe4293a97fdb61a44, 0x84492cd42b1141d6]));
    assert_eq!(a.checked_sub(b), None);
    assert_eq!(a.saturating_sub(b), Uint::<128, 2>::from_limbs([0x0, 0x0]));
    let a = Uint::<128, 2>::from_limbs([0xc32f3f715a948858, 0x13a690]);
    let b = Uint::<128, 2>::from_limbs([0xfffffdc2660f99a6, 0xffffffffffffffff]);
    assert_eq!(a.overflowing_add(b), (Uint::<128, 2>::from_limbs([0xc32f3d33c0a421fe, 0x13a690]), true));
    assert_eq!(a.wrapping_add(b), Uint::<128, 2>::from_limbs([0xc32f3d33c0a421fe, 0x13a690]));
    assert_eq!(a.checked_add(b), None);
    assert_eq!(a.saturating_add(b), Uint::<128, 2>::from_limbs([0xffffffffffffffff, 0xffffffffffffffff]));
    assert_eq!(a.overflowing_sub(b), (Uint::<128, 2>::from_limbs([0xc32f41aef484eeb2, 0x13a690]), true));
    assert_eq!(a.wrapping_sub(b), Uint::<128, 2>::from_limbs([0xc32f41aef484eeb2, 0x13a690]));
    assert_eq!(a.checked_sub(b), None);
    assert_eq!(a.saturating_sub(b), Uint::<128, 2>::from_limbs([0x0, 0x0]));
    let a = Uint::<128, 2>::from_limbs([0xffffffffffffffff, 0xffffffffffffffff]);
    let b = Uint::<128, 2>::from_limbs([0x1, 0x0]);
    assert_eq!(a.overflowing_add(b), (Uint::<128, 2>::from_limbs([0x0, 0x0]), true));
    assert_eq!(a.wrapping_add(b), Uint::<128, 2>::from_limbs([0x0, 0x0]));
    assert_eq!(a.checked_add(b), None);
    assert_eq!(a.saturating_add(b), Uint::<128, 2>::from_limbs([0xffffffffffffffff, 0xffffffffffffffff]));
    assert_eq!(a.overflowing_sub(b), (Uint::<128, 2>::from_limbs([0xfffffffffffffffe, 0xffffffffffffffff]), false));
    assert_eq!(a.wrapping_sub(b), Uint::<128, 2>::from_limbs([0xfffffffffffffffe, 0xffffffffffffffff]));
    assert_eq!(a.checked_sub(b), Some(Uint::<128, 2>::from_limbs([0xfffffffffffffffe, 0xffffffffffffffff])));
    assert_eq!(a.saturating_sub(b), Uint::<128, 2>::from_limbs([0xfffffffffffffffe, 0xffffffffffffffff]));
    let a = Uint::<128, 2>::from_limbs([0x0, 0x0]);
    let b = Uint::<128, 2>::from_limbs([0xffffffffffffffff, 0xffffffffffffffff]);
    assert_eq!(a.overflowing_add(b), (Uint::<128, 2>::from_limbs([0xffffffffffffffff, 0xffffffffffffffff]), false));
    assert_eq!(a.wrapping_add(b), Uint::<128, 2>::from_limbs([0xffffffffffffffff, 0xffffffffffffffff]));
    assert_eq!(a.checked_add(b), Some(Uint::<128, 2>::from_limbs([0xffffffffffffffff, 0xffffffffffffffff])));
    assert_eq!(a.saturating_add(b), Uint::<128, 2>::from_limbs([0xffffffffffffffff, 0xffffffffffffffff]));
    assert_eq!(a.overflowing_sub(b), (Uint::<128, 2>::from_limbs([0x1, 0x0]), true));
    assert_eq!(a.wrapping_sub(b), Uint::<128, 2>::from_limbs([0x1, 0x0]));
    assert_eq!(a.checked_sub(b), None);
    assert_eq!(a.saturating_sub(b), Uint::<128, 2>::from_limbs([0x0, 0x0]));
}

#[test]
fn add_sub_256_bits() {
    let a = Uint::<256, 4>::from_limbs([0xb727742d3c28989d, 0xf4daffe7b095cad, 0x0, 0x0]);
    let b = Uint::<256, 4>::from_limbs([0x9c7c489af9c21567, 0xe928d1d52a83fb1d, 0x0, 0x0]);
    assert_eq!(a.overflowing_add(b), (Uint::<256, 4>::from_limbs([0x53a3bcc835eaae04, 0xf87681d3a58d57cb, 0x0, 0x0]), false));
    assert_eq!(a.wrapping_add(b), Uint::<256, 4>::from_limbs([0x53a3bcc835eaae04, 0xf87681d3a58d57cb, 0x0, 0x0]));
    assert_eq!(a.checked_add(b), Some(Uint::<256, 4>::from_limbs([0x53a3bcc835eaae04, 0xf87681d3a58d57cb, 0x0, 0x0])));
    assert_eq!(a.saturating_add(b), Uint::<256, 4>::from_limbs([0x53a3bcc835eaae04, 0xf87681d3a58d57cb, 0x0, 0x0]));
    assert_eq!(a.overflowing_sub(b), (Uint::<256, 4>::from_limbs([0x1aab2b9242668336, 0x2624de2950856190, 0xffffffffffffffff, 0xffffffffffffffff]), true));
    assert_eq!(a.wrapping_sub(b), Uint::<256, 4>::from_limbs([0x1aab2b9242668336, 0x2624de2950856190, 0xffffffffffffffff, 0xffffffffffffffff]));
    assert_eq!(a.checked_sub(b), None);
    assert_eq!(a.saturating_sub(b), Uint::<256, 4>::from_limbs([0x0, 0x0, 0x0, 0x0]));
    let a = Uint::<256, 4>::from_limbs([0xb8e6973184fa43e5, 0xffffffffffe29479, 0xffffffffffffffff, 0xffffffffffffffff]);
    let b = Uint::<256, 4>::from_limbs([0x19fc1a20e2110b06, 0x60be9aa9ba30a818, 0x6e325d76d3b1613a, 0xf1a52983aa7975e2]);
    assert_eq!(a.overflowing_add(b), (Uint::<256, 4>::from_limbs([0xd2e2b152670b4eeb, 0x60be9aa9ba133c91, 0x6e325d76d3b1613a, 0xf1a52983aa7975e2]), true));
    assert_eq!(a.wrapping_add(b), Uint::<256, 4>::from_limbs([0xd2e2b152670b4eeb, 0x60be9aa9ba133c91, 0x6e325d76d3b1613a, 0xf1a52983aa7975e2]));
    assert_eq!(a.checked_add(b), None);
    assert_eq!(a.saturating_add(b), Uint::<256, 4>::from_limbs([0xffffffffffffffff, 0xffffffffffffffff, 0xffffffffffffffff, 0xffffffffffffffff]));
    assert_eq!(a.overflowing_sub(b), (Uint::<256, 4>::from_limbs([0x9eea7d10a2e938df, 0x9f41655645b1ec61, 0x91cda2892c4e9ec5, 0xe5ad67c55868a1d]), false));
    assert_eq!(a.wrapping_sub(b), Uint::<256, 4>::from_limbs([0x9eea7d10a2e938df, 0x9f41655645b1ec61, 0x91cda2892c4e9ec5, 0xe5ad67c55868a1d]));
    assert_eq!(a.checked_sub(b), Some(Uint::<256, 4>::from_limbs([0x9eea7d10a2e938df, 0x9f41655645b1ec61, 0x91cda2892c4e9ec5, 0xe5ad67c55868a1d])));
    assert_eq!(a.saturating_sub(b), Uint::<256, 4>::from_limbs([0x9eea7d10a2e938df, 0x9f41655645b1ec61, 0x91cda2892c4e9ec5, 0xe5ad67c55868a1d]));
    let a = Uint::<256, 4>::from_limbs([0xffffffffffffffff, 0xffffffffffffffff, 0xffffffffffffffff, 0xffffffffffffffff]);
    let b = Uint::<256, 4>::from_limbs([0x1, 0x0, 0x0, 0x0]);
    assert_eq!(a.overflowing_add(b), (Uint::<256, 4>::from_limbs([0x0, 0x0, 0x0, 0x0]), true));
    assert_eq!(a.wrapping_add(b), Uint::<256, 4>::from_limbs([0x0, 0x0, 0x0, 0x0]));
    assert_eq!(a.checked_add(b), None);
    assert_eq!(a.saturating_add(b), Uint::<256, 4>::from_limbs([0xffffffffffffffff, 0xffffffffffffffff, 0xffffffffffffffff, 0xffffffffffffffff]));
    assert_eq!(a.overflowing_sub(b), (Uint::<256, 4>::from_limbs([0xfffffffffffffffe, 0xffffffffffffffff, 0xffffffffffffffff, 0xffffffffffffffff]), false));
    assert_eq!(a.wrapping_sub(b), Uint::<256, 4>::from_limbs([0xfffffffffffffffe, 0xffffffffffffffff, 0xffffffffffffffff, 0xffffffffffffffff]));
    assert_eq!(a.checked_sub(b), Some(Uint::<256, 4>::from_limbs([0xfffffffffffffffe, 0xffffffffffffffff, 0xffffffffffffffff, 0xffffffffffffffff])));
    assert_eq!(a.saturating_sub(b), Uint::<256, 4>::from_limbs([0xfffffffffffffffe, 0xffffffffffffffff, 0xffffffffffffffff, 0xffffffffffffffff]));
    let a = Uint::<256, 4>::from_limbs([0x0, 0x0, 0x0, 0x0]);
    let b = Uint::<256, 4>::from_limbs([0xffffffffffffffff, 0xffffffffffffffff, 0xffffffffffffffff, 0xffffffffffffffff]);
    assert_eq!(a.overflowing_add(b), (Uint::<256, 4>::from_limbs([0xffffffffffffffff, 0xffffffffffffffff, 0xffffffffffffffff, 0xffffffffffffffff]), false));
    assert_eq!(a.wrapping_add(b), Uint::<256, 4>::from_limbs([0xffffffffffffffff, 0xffffffffffffffff, 0xffffffffffffffff, 0xffffffffffffffff]));
    assert_eq!(a.checked_add(b), Some(Uint::<256, 4>::from_limbs([0xffffffffffffffff, 0xffffffffffffffff, 0xffffffffffffffff, 0xffffffffffffffff])));
    assert_eq!(a.saturating_add(b), Uint::<256, 4>::from_limbs([0xffffffffffffffff, 0xffffffffffffffff, 0xffffffffffffffff, 0xffffffffffffffff]));
    assert_eq!(a.overflowing_sub(b), (Uint::<256, 4>::from_limbs([0x1, 0x0, 0x0, 0x0]), true));
    assert_eq!(a.wrapping_sub(b), Uint::<256, 4>::from_limbs([0x1, 0x0, 0x0, 0x0]));
    assert_eq!(a.checked_sub(b), None);
    assert_eq!(a.saturating_sub(b), Uint::<256, 4>::from_limbs([0x0, 0x0, 0x0, 0x0]));
}

#[test]
fn mul_7_bits() {
    let a = Uint::<7, 1>::from_limbs([0x1e]);
    let b = Uint::<7, 1>::from_limbs([0x1c]);
    assert_eq!(a.overflowing_mul(b), (Uint::<7, 1>::from_limbs([0x48]), true));
    assert_eq!(a.wrapping_mul(b), Uint::<7, 1>::from_limbs([0x48]));
    assert_eq!(a.checked_mul(b), None);
    assert_eq!(a.saturating_mul(b), Uint::<7, 1>::from_limbs([0x7f]));
    let a = Uint::<7, 1>::from_limbs([0x0]);
    let b = Uint::<7, 1>::from_limbs([0x0]);
    assert_eq!(a.overflowing_mul(b), (Uint::<7, 1>::from_limbs([0x0]), false));
    assert_eq!(a.wrapping_mul(b), Uint::<7, 1>::from_limbs([0x0]));
    assert_eq!(a.checked_mul(b), Some(Uint::<7, 1>::from_limbs([0x0])));
    assert_eq!(a.saturating_mul(b), Uint::<7, 1>::from_limbs([0x0]));
    let a = Uint::<7, 1>::from_limbs([0x7f]);
    let b = Uint::<7, 1>::from_limbs([0x7f]);
    assert_eq!(a.overflowing_mul(b), (Uint::<7, 1>::from_limbs([0x1]), true));
    assert_eq!(a.wrapping_mul(b), Uint::<7, 1>::from_limbs([0x1]));
    assert_eq!(a.checked_mul(b), None);
    assert_eq!(a.saturating_mul(b), Uint::<7, 1>::from_limbs([0x7f]));
    let a = Uint::<7, 1>::from_limbs([0x7f]);
    let b = Uint::<7, 1>::from_limbs([0x0]);
    assert_eq!(a.overflowing_mul(b), (Uint::<7, 1>::from_limbs([0x0]), false));
    assert_eq!(a.wrapping_mul(b), Uint::<7, 1>::from_limbs([0x0]));
    assert_eq!(a.checked_mul(b), Some(Uint::<7, 1>::from_limbs([0x0])));
    assert_eq!(a.saturating_mul(b), Uint::<7, 1>::from_limbs([0x0]));
    let a = Uint::<7, 1>::from_limbs([0x8]);
    let b = Uint::<7, 1>::from_limbs([0x10]);
    assert_eq!(a.overflowing_mul(b), (Uint::<7, 1>::from_limbs([0x0]), true));
    assert_eq!(a.wrapping_mul(b), Uint::<7, 1>::from_limbs([0x0]));
    assert_eq!(a.checked_mul(b), None);
    assert_eq!(a.saturating_mul(b), Uint::<7, 1>::from_limbs([0x7f]));
}

#[test]
fn mul_64_bits() {
    let a = Uint::<64, 1>::from_limbs([0x5d6e1742]);
    let b = Uint::<64, 1>::from_limbs([0x875b6eff]);
    assert_eq!(a.overflowing_mul(b), (Uint::<64, 1>::from_limbs([0x31666ce8711d86be]), false));
    assert_eq!(a.wrapping_mul(b), Uint::<64, 1>::from_limbs([0x31666ce8711d86be]));
    assert_eq!(a.checked_mul(b), Some(Uint::<64, 1>::from_limbs([0x31666ce8711d86be])));
    assert_eq!(a.saturating_mul(b), Uint::<64, 1>::from_limbs([0x31666ce8711d86be]));
    let a = Uint::<64, 1>::from_limbs([0x0]);
    let b = Uint::<64, 1>::from_limbs([0x1bab6c4e]);
    assert_eq!(a.overflowing_mul(b), (Uint::<64, 1>::from_limbs([0x0]), false));
    assert_eq!(a.wrapping_mul(b), Uint::<64, 1>::from_limbs([0x0]));
    assert_eq!(a.checked_mul(b), Some(Uint::<64, 1>::from_limbs([0x0])));
    assert_eq!(a.saturating_mul(b), Uint::<64, 1>::from_limbs([0x0]));
    let a = Uint::<64, 1>::from_limbs([0xffffffffffffffff]);
    let b = Uint::<64, 1>::from_limbs([0xffffffffffffffff]);
    assert_eq!(a.overflowing_mul(b), (Uint::<64, 1>::from_limbs([0x1]), true));
    assert_eq!(a.wrapping_mul(b), Uint::<64, 1>::from_limbs([0x1]));
    assert_eq!(a.checked_mul(b), None);
    assert_eq!(a.saturating_mul(b), Uint::<64, 1>::from_limbs([0xffffffffffffffff]));
    let a = Uint::<64, 1>::from_limbs([0xffffffffffffffff]);
    let b = Uint::<64, 1>::from_limbs([0x0]);
    assert_eq!(a.overflowing_mul(b), (Uint::<64, 1>::from_limbs([0x0]), false));
    assert_eq!(a.wrapping_mul(b), Uint::<64, 1>::from_limbs([0x0]));
    assert_eq!(a.checked_mul(b), Some(Uint::<64, 1>::from_limbs([0x0])));
    assert_eq!(a.saturating_mul(b), Uint::<64, 1>::from_limbs([0x0]));
    let a = Uint::<64, 1>::from_limbs([0x100000000]);
    let b = Uint::<64, 1>::from_limbs([0x100000000]);
    assert_eq!(a.overflowing_mul(b), (Uint::<64, 1>::from_limbs([0x0]), true));
    assert_eq!(a.wrapping_mul(b), Uint::<64, 1>::from_limbs([0x0]));
    assert_eq!(a.checked_mul(b), None);
    assert_eq!(a.saturating_mul(b), Uint::<64, 1>::from_limbs([0xffffffffffffffff]));
}

#[test]
fn mul_65_bits() {
    let a = Uint::<65, 2>::from_limbs([0x234bf176c68d4a0, 0x1]);
    let b = Uint::<65, 2>::from_limbs([0x8e1a0cc7bcc3b287, 0x0]);
    assert_eq!(a.overflowing_mul(b), (Uint::<65, 2>::from_limbs([0x20d8671a84ff6060, 0x0]), true));
    assert_eq!(a.wrapping_mul(b), Uint::<65, 2>::from_limbs([0x20d8671a84ff6060, 0x0]));
    assert_eq!(a.checked_mul(b), None);
    assert_eq!(a.saturating_mul(b), Uint::<65, 2>::from_limbs([0xffffffffffffffff, 0x1]));
    let a = Uint::<65, 2>::from_limbs([0x0, 0x0]);
    let b = Uint::<65, 2>::from_limbs([0xffffffff, 0x0]);
    assert_eq!(a.overflowing_mul(b), (Uint::<65, 2>::from_limbs([0x0, 0x0]), false));
    assert_eq!(a.wrapping_mul(b), Uint::<65, 2>::from_limbs([0x0, 0x0]));
    assert_eq!(a.checked_mul(b), Some(Uint::<65, 2>::from_limbs([0x0, 0x0])));
    assert_eq!(a.saturating_mul(b), Uint::<65, 2>::from_limbs([0x0, 0x0]));
    let a = Uint::<65, 2>::from_limbs([0xffffffffffffffff, 0x1]);
    let b = Uint::<65, 2>::from_limbs([0xffffffffffffffff, 0x1]);
    assert_eq!(a.overflowing_mul(b), (Uint::<65, 2>::from_limbs([0x1, 0x0]), true));
    assert_eq!(a.wrapping_mul(b), Uint::<65, 2>::from_limbs([0x1, 0x0]));
    assert_eq!(a.checked_mul(b), None);
    assert_eq!(a.saturating_mul(b), Uint::<65, 2>::from_limbs([0xffffffffffffffff, 0x1]));
    let a = Uint::<65, 2>::from_limbs([0xffffffffffffffff, 0x1]);
    let b = Uint::<65, 2>::from_limbs([0x0, 0x0]);
    assert_eq!(a.overflowing_mul(b), (Uint::<65, 2>::from_limbs([0x0, 0x0]), false));
    assert_eq!(a.wrapping_mul(b), Uint::<65, 2>::from_limbs([0x0, 0x0]));
    assert_eq!(a.checked_mul(b), Some(Uint::<65, 2>::from_limbs([0x0, 0x0])));
    assert_eq!(a.saturating_mul(b), Uint::<65, 2>::from_limbs([0x0, 0x0]));
    let a = Uint::<65, 2>::from_limbs([0x100000000, 0x0]);
    let b = Uint::<65, 2>::from_limbs([0x200000000, 0x0]);
    assert_eq!(a.overflowing_mul(b), (Uint::<65, 2>::from_limbs([0x0, 0x0]), true));
    assert_eq!(a.wrapping_mul(b), Uint::<65, 2>::from_limbs([0x0, 0x0]));
    assert_eq!(a.checked_mul(b), None);
    assert_eq!(a.saturating_mul(b), Uint::<65, 2>::from_limbs([0xffffffffffffffff, 0x1]));
}

#[test]
fn mul_128_bits() {
    let a = Uint::<128, 2>::from_limbs([0xecde2, 0x0]);
    let b = Uint::<128, 2>::from_limbs([0xffffff59c17755cd, 0xffffffffffffffff]);
    assert_eq!(a.overflowing_mul(b), (Uint::<128, 2>::from_limbs([0xf662e1b00c44e7fa, 0xffffffffffffffff]), true));
    assert_eq!(a.wrapping_mul(b), Uint::<128, 2>::from_limbs([0xf662e1b00c44e7fa, 0xffffffffffffffff]));
    assert_eq!(a.checked_mul(b), None);
    assert_eq!(a.saturating_mul(b), Uint::<128, 2>::from_limbs([0xffffffffffffffff, 0xffffffffffffffff]));
    let a = Uint::<128, 2>::from_limbs([0x0, 0x0]);
    let b = Uint::<128, 2>::from_limbs([0x7a632a8466842719, 0x0]);
    assert_eq!(a.overflowing_mul(b), (Uint::<128, 2>::from_limbs([0x0, 0x0]), false));
    assert_eq!(a.wrapping_mul(b), Uint::<128, 2>::from_limbs([0x0, 0x0]));
    assert_eq!(a.checked_mul(b), Some(Uint::<128, 2>::from_limbs([0x0, 0x0])));
    assert_eq!(a.saturating_mul(b), Uint::<128, 2>::from_limbs([0x0, 0x0]));
    let a = Uint::<128, 2>::from_limbs([0xffffffffffffffff, 0xffffffffffffffff]);
    let b = Uint::<128, 2>::from_limbs([0xffffffffffffffff, 0xffffffffffffffff]);
    assert_eq!(a.overflowing_mul(b), (Uint::<128, 2>::from_limbs([0x1, 0x0]), true));
    assert_eq!(a.wrapping_mul(b), Uint::<128, 2>::from_limbs([0x1, 0x0]));
    assert_eq!(a.checked_mul(b), None);
    assert_eq!(a.saturating_mul(b), Uint::<128, 2>::from_limbs([0xffffffffffffffff, 0xffffffffffffffff]));
    let a = Uint::<128, 2>::from_limbs([0xffffffffffffffff, 0xffffffffffffffff]);
    let b = Uint::<128, 2>::from_limbs([0x0, 0x0]);
    assert_eq!(a.overflowing_mul(b), (Uint::<128, 2>::from_limbs([0x0, 0x0]), false));
    assert_eq!(a.wrapping_mul(b), Uint::<128, 2>::from_limbs([0x0, 0x0]));
    assert_eq!(a.checked_mul(b), Some(Uint::<128, 2>::from_limbs([0x0, 0x0])));
    assert_eq!(a.saturating_mul(b), Uint::<128, 2>::from_limbs([0x0, 0x0]));
    let a = Uint::<128, 2>::from_limbs([0x0, 0x1]);
    let b = Uint::<128, 2>::from_limbs([0x0, 0x1]);
    assert_eq!(a.overflowing_mul(b), (Uint::<128, 2>::from_limbs([0x0, 0x0]), true));
    assert_eq!(a.wrapping_mul(b), Uint::<128, 2>::from_limbs([0x0, 0x0]));
    assert_eq!(a.checked_mul(b), None);
    assert_eq!(a.saturating_mul(b), Uint::<128, 2>::from_limbs([0xffffffffffffffff, 0xffffffffffffffff]));
}

#[test]
fn mul_256_bits() {
    let a = Uint::<256, 4>::from_limbs([0x5fbd9cc9774afa8f, 0x4bf01f77a894a44b, 0x0, 0x0]);
    let b = Uint::<256, 4>::from_limbs([0x8bdc7df78839b1b2, 0x26d82cbab1877df1, 0x64eed74dcb962ed, 0xe7549cf90680d87f]);
    assert_eq!(a.overflowing_mul(b), (Uint::<256, 4>::from_limbs([0x490d47568b36166e, 0xa24b03459d56f9d9, 0xe3c898b62aff236d, 0x3b4c21bfed1fa80a]), true));
    assert_eq!(a.wrapping_mul(b), Uint::<256, 4>::from_limbs([0x490d47568b36166e, 0xa24b03459d56f9d9, 0xe3c898b62aff236d, 0x3b4c21bfed1fa80a]));
    assert_eq!(a.checked_mul(b), None);
    assert_eq!(a.saturating_mul(b), Uint::<256, 4>::from_limbs([0xffffffffffffffff, 0xffffffffffffffff, 0xffffffffffffffff, 0xffffffffffffffff]));
    let a = Uint::<256, 4>::from_limbs([0x0, 0x0, 0x0, 0x0]);
    let b = Uint::<256, 4>::from_limbs([0x0, 0x0, 0x0, 0x0]);
    assert_eq!(a.overflowing_mul(b), (Uint::<256, 4>::from_limbs([0x0, 0x0, 0x0, 0x0]), false));
    assert_eq!(a.wrapping_mul(b), Uint::<256, 4>::from_limbs([0x0, 0x0, 0x0, 0x0]));
    assert_eq!(a.checked_mul(b), Some(Uint::<256, 4>::from_limbs([0x0, 0x0, 0x0, 0x0])));
    assert_eq!(a.saturating_mul(b), Uint::<256, 4>::from_limbs([0x0, 0x0, 0x0, 0x0]));
    let a = Uint::<256, 4>::from_limbs([0xffffffffffffffff, 0xffffffffffffffff, 0xffffffffffffffff, 0xffffffffffffffff]);
    let b = Uint::<256, 4>::from_limbs([0xffffffffffffffff, 0xffffffffffffffff, 0xffffffffffffffff, 0xffffffffffffffff]);
    assert_eq!(a.overflowing_mul(b), (Uint::<256, 4>::from_limbs([0x1, 0x0, 0x0, 0x0]), true));
    assert_eq!(a.wrapping_mul(b), Uint::<256, 4>::from_limbs([0x1, 0x0, 0x0, 0x0]));
    assert_eq!(a.checked_mul(b), None);
    assert_eq!(a.saturating_mul(b), Uint::<256, 4>::from_limbs([0xffffffffffffffff, 0xffffffffffffffff, 0xffffffffffffffff, 0xffffffffffffffff]));
    let a = Uint::<256, 4>::from_limbs([0xffffffffffffffff, 0xffffffffffffffff, 0xffffffffffffffff, 0xffffffffffffffff]);
    let b = Uint::<256, 4>::from_limbs([0x0, 0x0, 0x0, 0x0]);
    assert_eq!(a.overflowing_mul(b), (Uint::<256, 4>::from_limbs([0x0, 0x0, 0x0, 0x0]), false));
    assert_eq!(a.wrapping_mul(b), Uint::<256, 4>::from_limbs([0x0, 0x0, 0x0, 0x0]));
    assert_eq!(a.checked_mul(b), Some(Uint::<256, 4>::from_limbs([0x0, 0x0, 0x0, 0x0])));
    assert_eq!(a.saturating_mul(b), Uint::<256, 4>::from_limbs([0x0, 0x0, 0x0, 0x0]));
    let a = Uint::<256, 4>::from_limbs([0x0, 0x0, 0x1, 0x0]);
    let b = Uint::<256, 4>::from_limbs([0x0, 0x0, 0x1, 0x0]);
    assert_eq!(a.overflowing_mul(b), (Uint::<256, 4>::from_limbs([0x0, 0x0, 0x0, 0x0]), true));
    assert_eq!(a.wrapping_mul(b), Uint::<256, 4>::from_limbs([0x0, 0x0, 0x0, 0x0]));
    assert_eq!(a.checked_mul(b), None);
    assert_eq!(a.saturating_mul(b), Uint::<256, 4>::from_limbs([0xffffffffffffffff, 0xffffffffffffffff, 0xffffffffffffffff, 0xffffffffffffffff]));
}

#[test]
fn div_rem_7_bits() {
    let a = Uint::<7, 1>::from_limbs([0x2]);
    let b = Uint::<7, 1>::from_limbs([0x1a]);
    assert_eq!(a.div_rem(b), (Uint::<7, 1>::from_limbs([0x0]), Uint::<7, 1>::from_limbs([0x2])));
    assert_eq!(a.checked_div_rem(b), Ok((Uint::<7, 1>::from_limbs([0x0]), Uint::<7, 1>::from_limbs([0x2]))));
    assert_eq!(a.checked_div(b), Some(Uint::<7, 1>::from_limbs([0x0])));
    assert_eq!(a.checked_rem(b), Some(Uint::<7, 1>::from_limbs([0x2])));
    let a = Uint::<7, 1>::from_limbs([0x3]);
    let b = Uint::<7, 1>::from_limbs([0xe]);
    assert_eq!(a.div_rem(b), (Uint::<7, 1>::from_limbs([0x0]), Uint::<7, 1>::from_limbs([0x3])));
    assert_eq!(a.checked_div_rem(b), Ok((Uint::<7, 1>::from_limbs([0x0]), Uint::<7, 1>::from_limbs([0x3]))));
    assert_eq!(a.checked_div(b), Some(Uint::<7, 1>::from_limbs([0x0])));
    assert_eq!(a.checked_rem(b), Some(Uint::<7, 1>::from_limbs([0x3])));
    let a = Uint::<7, 1>::from_limbs([0x7f]);
    let b = Uint::<7, 1>::from_limbs([0x1]);
    assert_eq!(a.div_rem(b), (Uint::<7, 1>::from_limbs([0x7f]), Uint::<7, 1>::from_limbs([0x0])));
    assert_eq!(a.checked_div_rem(b), Ok((Uint::<7, 1>::from_limbs([0x7f]), Uint::<7, 1>::from_limbs([0x0]))));
    assert_eq!(a.checked_div(b), Some(Uint::<7, 1>::from_limbs([0x7f])));
    assert_eq!(a.checked_rem(b), Some(Uint::<7, 1>::from_limbs([0x0])));
    let a = Uint::<7, 1>::from_limbs([0x7f]);
    let b = Uint::<7, 1>::from_limbs([0x7f]);
    assert_eq!(a.div_rem(b), (Uint::<7, 1>::from_limbs([0x1]), Uint::<7, 1>::from_limbs([0x0])));
    assert_eq!(a.checked_div_rem(b), Ok((Uint::<7, 1>::from_limbs([0x1]), Uint::<7, 1>::from_limbs([0x0]))));
    assert_eq!(a.checked_div(b), Some(Uint::<7, 1>::from_limbs([0x1])));
    assert_eq!(a.checked_rem(b), Some(Uint::<7, 1>::from_limbs([0x0])));
    let a = Uint::<7, 1>::from_limbs([0x0]);
    let b = Uint::<7, 1>::from_limbs([0x7f]);
    assert_eq!(a.div_rem(b), (Uint::<7, 1>::from_limbs([0x0]), Uint::<7, 1>::from_limbs([0x0])));
    assert_eq!(a.checked_div_rem(b), Ok((Uint::<7, 1>::from_limbs([0x0]), Uint::<7, 1>::from_limbs([0x0]))));
    assert_eq!(a.checked_div(b), Some(Uint::<7, 1>::from_limbs([0x0])));
    assert_eq!(a.checked_rem(b), Some(Uint::<7, 1>::from_limbs([0x0])));
    let a = Uint::<7, 1>::from_limbs([0x7c]);
    let b = Uint::<7, 1>::from_limbs([0x3]);
    assert_eq!(a.div_rem(b), (Uint::<7, 1>::from_limbs([0x29]), Uint::<7, 1>::from_limbs([0x1])));
    assert_eq!(a.checked_div_rem(b), Ok((Uint::<7, 1>::from_limbs([0x29]), Uint::<7, 1>::from_limbs([0x1]))));
    assert_eq!(a.checked_div(b), Some(Uint::<7, 1>::from_limbs([0x29])));
    assert_eq!(a.checked_rem(b), Some(Uint::<7, 1>::from_limbs([0x1])));
    let a = Uint::<7, 1>::from_limbs([0x5]);
    let b = Uint::<7, 1>::from_limbs([0x0]);
    assert_eq!(a.checked_div_rem(b), Err(DivisionByZero));
    assert_eq!(a.checked_div(b), None);
    assert_eq!(a.checked_rem(b), None);
}

#[test]
fn div_rem_64_bits() {
    let a = Uint::<64, 1>::from_limbs([0xfffffffffff81b5e]);
    let b = Uint::<64, 1>::from_limbs([0xfffffffffffcefdd]);
    assert_eq!(a.div_rem(b), (Uint::<64, 1>::from_limbs([0x0]), Uint::<64, 1>::from_limbs([0xfffffffffff81b5e])));
    assert_eq!(a.checked_div_rem(b), Ok((Uint::<64, 1>::from_limbs([0x0]), Uint::<64, 1>::from_limbs([0xfffffffffff81b5e]))));
    assert_eq!(a.checked_div(b), Some(Uint::<64, 1>::from_limbs([0x0])));
    assert_eq!(a.checked_rem(b), Some(Uint::<64, 1>::from_limbs([0xfffffffffff81b5e])));
    let a = Uint::<64, 1>::from_limbs([0xac8f1f56]);
    let b = Uint::<64, 1>::from_limbs([0x1]);
    assert_eq!(a.div_rem(b), (Uint::<64, 1>::from_limbs([0xac8f1f56]), Uint::<64, 1>::from_limbs([0x0])));
    assert_eq!(a.checked_div_rem(b), Ok((Uint::<64, 1>::from_limbs([0xac8f1f56]), Uint::<64, 1>::from_limbs([0x0]))));
    assert_eq!(a.checked_div(b), Some(Uint::<64, 1>::from_limbs([0xac8f1f56])));
    assert_eq!(a.checked_rem(b), Some(Uint::<64, 1>::from_limbs([0x0])));
    let a = Uint::<64, 1>::from_limbs([0xffffffffffffffff]);
    let b = Uint::<64, 1>::from_limbs([0x1]);
    assert_eq!(a.div_rem(b), (Uint::<64, 1>::from_limbs([0xffffffffffffffff]), Uint::<64, 1>::from_limbs([0x0])));
    assert_eq!(a.checked_div_rem(b), Ok((Uint::<64, 1>::from_limbs([0xffffffffffffffff]), Uint::<64, 1>::from_limbs([0x0]))));
    assert_eq!(a.checked_div(b), Some(Uint::<64, 1>::from_limbs([0xffffffffffffffff])));
    assert_eq!(a.checked_rem(b), Some(Uint::<64, 1>::from_limbs([0x0])));
    let a = Uint::<64, 1>::from_limbs([0xffffffffffffffff]);
    let b = Uint::<64, 1>::from_limbs([0xffffffffffffffff]);
    assert_eq!(a.div_rem(b), (Uint::<64, 1>::from_limbs([0x1]), Uint::<64, 1>::from_limbs([0x0])));
    assert_eq!(a.checked_div_rem(b), Ok((Uint::<64, 1>::from_limbs([0x1]), Uint::<64, 1>::from_limbs([0x0]))));
    assert_eq!(a.checked_div(b), Some(Uint::<64, 1>::from_limbs([0x1])));
    assert_eq!(a.checked_rem(b), Some(Uint::<64, 1>::from_limbs([0x0])));
    let a = Uint::<64, 1>::from_limbs([0x0]);
    let b = Uint::<64, 1>::from_limbs([0xffffffffffffffff]);
    assert_eq!(a.div_rem(b), (Uint::<64, 1>::from_limbs([0x0]), Uint::<64, 1>::from_limbs([0x0])));
    assert_eq!(a.checked_div_rem(b), Ok((Uint::<64, 1>::from_limbs([0x0]), Uint::<64, 1>::from_limbs([0x0]))));
    assert_eq!(a.checked_div(b), Some(Uint::<64, 1>::from_limbs([0x0])));
    assert_eq!(a.checked_rem(b), Some(Uint::<64, 1>::from_limbs([0x0])));
    let a = Uint::<64, 1>::from_limbs([0x1391fc2827601a66]);
    let b = Uint::<64, 1>::from_limbs([0x3]);
    assert_eq!(a.div_rem(b), (Uint::<64, 1>::from_limbs([0x685feb80d2008cc]), Uint::<64, 1>::from_limbs([0x2])));
    assert_eq!(a.checked_div_rem(b), Ok((Uint::<64, 1>::from_limbs([0x685feb80d2008cc]), Uint::<64, 1>::from_limbs([0x2]))));
    assert_eq!(a.checked_div(b), Some(Uint::<64, 1>::from_limbs([0x685feb80d2008cc])));
    assert_eq!(a.checked_rem(b), Some(Uint::<64, 1>::from_limbs([0x2])));
    let a = Uint::<64, 1>::from_limbs([0x5]);
    let b = Uint::<64, 1>::from_limbs([0x0]);
    assert_eq!(a.checked_div_rem(b), Err(DivisionByZero));
    assert_eq!(a.checked_div(b), None);
    assert_eq!(a.checked_rem(b), None);
}

#[test]
fn div_rem_65_bits() {
    let a = Uint::<65, 2>::from_limbs([0xffffffffffe5a58c, 0x1]);
    let b = Uint::<65, 2>::from_limbs([0xbfd1aaa306a06e39, 0x0]);
    assert_eq!(a.div_rem(b), (Uint::<65, 2>::from_limbs([0x2, 0x0]), Uint::<65, 2>::from_limbs([0x805caab9f2a4c91a, 0x0])));
    assert_eq!(a.checked_div_rem(b), Ok((Uint::<65, 2>::from_limbs([0x2, 0x0]), Uint::<65, 2>::from_limbs([0x805caab9f2a4c91a, 0x0]))));
    assert_eq!(a.checked_div(b), Some(Uint::<65, 2>::from_limbs([0x2, 0x0])));
    assert_eq!(a.checked_rem(b), Some(Uint::<65, 2>::from_limbs([0x805caab9f2a4c91a, 0x0])));
    let a = Uint::<65, 2>::from_limbs([0x45f3cb0d, 0x0]);
    let b = Uint::<65, 2>::from_limbs([0xd8f, 0x0]);
    assert_eq!(a.div_rem(b), (Uint::<65, 2>::from_limbs([0x528c5, 0x0]), Uint::<65, 2>::from_limbs([0x402, 0x0])));
    assert_eq!(a.checked_div_rem(b), Ok((Uint::<65, 2>::from_limbs([0x528c5, 0x0]), Uint::<65, 2>::from_limbs([0x402, 0x0]))));
    assert_eq!(a.checked_div(b), Some(Uint::<65, 2>::from_limbs([0x528c5, 0x0])));
    assert_eq!(a.checked_rem(b), Some(Uint::<65, 2>::from_limbs([0x402, 0x0])));
    let a = Uint::<65, 2>::from_limbs([0xffffffffffffffff, 0x1]);
    let b = Uint::<65, 2>::from_limbs([0x1, 0x0]);
    assert_eq!(a.div_rem(b), (Uint::<65, 2>::from_limbs([0xffffffffffffffff, 0x1]), Uint::<65, 2>::from_limbs([0x0, 0x0])));
    assert_eq!(a.checked_div_rem(b), Ok((Uint::<65, 2>::from_limbs([0xffffffffffffffff, 0x1]), Uint::<65, 2>::from_limbs([0x0, 0x0]))));
    assert_eq!(a.checked_div(b), Some(Uint::<65, 2>::from_limbs([0xffffffffffffffff, 0x1])));
    assert_eq!(a.checked_rem(b), Some(Uint::<65, 2>::from_limbs([0x0, 0x0])));
    let a = Uint::<65, 2>::from_limbs([0xffffffffffffffff, 0x1]);
    let b = Uint::<65, 2>::from_limbs([0xffffffffffffffff, 0x1]);
    assert_eq!(a.div_rem(b), (Uint::<65, 2>::from_limbs([0x1, 0x0]), Uint::<65, 2>::from_limbs([0x0, 0x0])));
    assert_eq!(a.checked_div_rem(b), Ok((Uint::<65, 2>::from_limbs([0x1, 0x0]), Uint::<65, 2>::from_limbs([0x0, 0x0]))));
    assert_eq!(a.checked_div(b), Some(Uint::<65, 2>::from_limbs([0x1, 0x0])));
    assert_eq!(a.checked_rem(b), Some(Uint::<65, 2>::from_limbs([0x0, 0x0])));
    let a = Uint::<65, 2>::from_limbs([0x0, 0x0]);
    let b = Uint::<65, 2>::from_limbs([0xffffffffffffffff, 0x1]);
    assert_eq!(a.div_rem(b), (Uint::<65, 2>::from_limbs([0x0, 0x0]), Uint::<65, 2>::from_limbs([0x0, 0x0])));
    assert_eq!(a.checked_div_rem(b), Ok((Uint::<65, 2>::from_limbs([0x0, 0x0]), Uint::<65, 2>::from_limbs([0x0, 0x0]))));
    assert_eq!(a.checked_div(b), Some(Uint::<65, 2>::from_limbs([0x0, 0x0])));
    assert_eq!(a.checked_rem(b), Some(Uint::<65, 2>::from_limbs([0x0, 0x0])));
    let a = Uint::<65, 2>::from_limbs([0xd57dee44, 0x0]);
    let b = Uint::<65, 2>::from_limbs([0x3, 0x0]);
    assert_eq!(a.div_rem(b), (Uint::<65, 2>::from_limbs([0x4729fa16, 0x0]), Uint::<65, 2>::from_limbs([0x2, 0x0])));
    assert_eq!(a.checked_div_rem(b), Ok((Uint::<65, 2>::from_limbs([0x4729fa16, 0x0]), Uint::<65, 2>::from_limbs([0x2, 0x0]))));
    assert_eq!(a.checked_div(b), Some(Uint::<65, 2>::from_limbs([0x4729fa16, 0x0])));
    assert_eq!(a.checked_rem(b), Some(Uint::<65, 2>::from_limbs([0x2, 0x0])));
    let a = Uint::<65, 2>::from_limbs([0x5, 0x0]);
    let b = Uint::<65, 2>::from_limbs([0x0, 0x0]);
    assert_eq!(a.checked_div_rem(b), Err(DivisionByZero));
    assert_eq!(a.checked_div(b), None);
    assert_eq!(a.checked_rem(b), None);
    let a = Uint::<65, 2>::from_limbs([0xffffffffffffffff, 0x1]);
    let b = Uint::<65, 2>::from_limbs([0x0, 0x1]);
    assert_eq!(a.div_rem(b), (Uint::<65, 2>::from_limbs([0x1, 0x0]), Uint::<65, 2>::from_limbs([0xffffffffffffffff, 0x0])));
    assert_eq!(a.checked_div_rem(b), Ok((Uint::<65, 2>::from_limbs([0x1, 0x0]), Uint::<65, 2>::from_limbs([0xffffffffffffffff, 0x0]))));
    assert_eq!(a.checked_div(b), Some(Uint::<65, 2>::from_limbs([0x1, 0x0])));
    assert_eq!(a.checked_rem(b), Some(Uint::<65, 2>::from_limbs([0xffffffffffffffff, 0x0])));
    let a = Uint::<65, 2>::from_limbs([0xffffffffffffffff, 0x1]);
    let b = Uint::<65, 2>::from_limbs([0x1, 0x1]);
    assert_eq!(a.div_rem(b), (Uint::<65, 2>::from_limbs([0x1, 0x0]), Uint::<65, 2>::from_limbs([0xfffffffffffffffe, 0x0])));
    assert_eq!(a.checked_div_rem(b), Ok((Uint::<65, 2>::from_limbs([0x1, 0x0]), Uint::<65, 2>::from_limbs([0xfffffffffffffffe, 0x0]))));
    assert_eq!(a.checked_div(b), Some(Uint::<65, 2>::from_limbs([0x1, 0x0])));
    assert_eq!(a.checked_rem(b), Some(Uint::<65, 2>::from_limbs([0xfffffffffffffffe, 0x0])));
    let a = Uint::<65, 2>::from_limbs([0x0, 0x1]);
    let b = Uint::<65, 2>::from_limbs([0x0, 0x1]);
    assert_eq!(a.div_rem(b), (Uint::<65, 2>::from_limbs([0x1, 0x0]), Uint::<65, 2>::from_limbs([0x0, 0x0])));
    assert_eq!(a.checked_div_rem(b), Ok((Uint::<65, 2>::from_limbs([0x1, 0x0]), Uint::<65, 2>::from_limbs([0x0, 0x0]))));
    assert_eq!(a.checked_div(b), Some(Uint::<65, 2>::from_limbs([0x1, 0x0])));
    assert_eq!(a.checked_rem(b), Some(Uint::<65, 2>::from_limbs([0x0, 0x0])));
}

#[test]
fn div_rem_128_bits() {
    let a = Uint::<128, 2>::from_limbs([0x6f7b70114060a833, 0x3d2af9a06d]);
    let b = Uint::<128, 2>::from_limbs([0x3d96daded045c1f5, 0xe1571133e7233dab]);
    assert_eq!(a.div_rem(b), (Uint::<128, 2>::from_limbs([0x0, 0x0]), Uint::<128, 2>::from_limbs([0x6f7b70114060a833, 0x3d2af9a06d])));
    assert_eq!(a.checked_div_rem(b), Ok((Uint::<128, 2>::from_limbs([0x0, 0x0]), Uint::<128, 2>::from_limbs([0x6f7b70114060a833, 0x3d2af9a06d]))));
    assert_eq!(a.checked_div(b), Some(Uint::<128, 2>::from_limbs([0x0, 0x0])));
    assert_eq!(a.checked_rem(b), Some(Uint::<128, 2>::from_limbs([0x6f7b70114060a833, 0x3d2af9a06d])));
    let a = Uint::<128, 2>::from_limbs([0xfffffe667ff73e8c, 0xffffffffffffffff]);
    let b = Uint::<128, 2>::from_limbs([0x63b433c8e5ea20e9, 0x0]);
    assert_eq!(a.div_rem(b), (Uint::<128, 2>::from_limbs([0x914e62111465d1ca, 0x2]), Uint::<128, 2>::from_limbs([0x302bbcc2c06e0db2, 0x0])));
    assert_eq!(a.checked_div_rem(b), Ok((Uint::<128, 2>::from_limbs([0x914e62111465d1ca, 0x2]), Uint::<128, 2>::from_limbs([0x302bbcc2c06e0db2, 0x0]))));
    assert_eq!(a.checked_div(b), Some(Uint::<128, 2>::from_limbs([0x914e62111465d1ca, 0x2])));
    assert_eq!(a.checked_rem(b), Some(Uint::<128, 2>::from_limbs([0x302bbcc2c06e0db2, 0x0])));
    let a = Uint::<128, 2>::from_limbs([0xffffffffffffffff, 0xffffffffffffffff]);
    let b = Uint::<128, 2>::from_limbs([0x1, 0x0]);
    assert_eq!(a.div_rem(b), (Uint::<128, 2>::from_limbs([0xffffffffffffffff, 0xffffffffffffffff]), Uint::<128, 2>::from_limbs([0x0, 0x0])));
    assert_eq!(a.checked_div_rem(b), Ok((Uint::<128, 2>::from_limbs([0xffffffffffffffff, 0xffffffffffffffff]), Uint::<128, 2>::from_limbs([0x0, 0x0]))));
    assert_eq!(a.checked_div(b), Some(Uint::<128, 2>::from_limbs([0xffffffffffffffff, 0xffffffffffffffff])));
    assert_eq!(a.checked_rem(b), Some(Uint::<128, 2>::from_limbs([0x0, 0x0])));
    let a = Uint::<128, 2>::from_limbs([0xffffffffffffffff, 0xffffffffffffffff]);
    let b = Uint::<128, 2>::from_limbs([0xffffffffffffffff, 0xffffffffffffffff]);
    assert_eq!(a.div_rem(b), (Uint::<128, 2>::from_limbs([0x1, 0x0]), Uint::<128, 2>::from_limbs([0x0, 0x0])));
    assert_eq!(a.checked_div_rem(b), Ok((Uint::<128, 2>::from_limbs([0x1, 0x0]), Uint::<128, 2>::from_limbs([0x0, 0x0]))));
    assert_eq!(a.checked_div(b), Some(Uint::<128, 2>::from_limbs([0x1, 0x0])));
    assert_eq!(a.checked_rem(b), Some(Uint::<128, 2>::from_limbs([0x0, 0x0])));
    let a = Uint::<128, 2>::from_limbs([0x0, 0x0]);
    let b = Uint::<128, 2>::from_limbs([0xffffffffffffffff, 0xffffffffffffffff]);
    assert_eq!(a.div_rem(b), (Uint::<128, 2>::from_limbs([0x0, 0x0]), Uint::<128, 2>::from_limbs([0x0, 0x0])));
    assert_eq!(a.checked_div_rem(b), Ok((Uint::<128, 2>::from_limbs([0x0, 0x0]), Uint::<128, 2>::from_limbs([0x0, 0x0]))));
    assert_eq!(a.checked_div(b), Some(Uint::<128, 2>::from_limbs([0x0, 0x0])));
    assert_eq!(a.checked_rem(b), Some(Uint::<128, 2>::from_limbs([0x0, 0x0])));
    let a = Uint::<128, 2>::from_limbs([0xc259ca14c0b726d9, 0x0]);
    let b = Uint::<128, 2>::from_limbs([0x3, 0x0]);
    assert_eq!(a.div_rem(b), (Uint::<128, 2>::from_limbs([0x40c898b195926248, 0x0]), Uint::<128, 2>::from_limbs([0x1, 0x0])));
    assert_eq!(a.checked_div_rem(b), Ok((Uint::<128, 2>::from_limbs([0x40c898b195926248, 0x0]), Uint::<128, 2>::from_limbs([0x1, 0x0]))));
    assert_eq!(a.checked_div(b), Some(Uint::<128, 2>::from_limbs([0x40c898b195926248, 0x0])));
    assert_eq!(a.checked_rem(b), Some(Uint::<128, 2>::from_limbs([0x1, 0x0])));
    let a = Uint::<128, 2>::from_limbs([0x5, 0x0]);
    let b = Uint::<128, 2>::from_limbs([0x0, 0x0]);
    assert_eq!(a.checked_div_rem(b), Err(DivisionByZero));
    assert_eq!(a.checked_div(b), None);
    assert_eq!(a.checked_rem(b), None);
    let a = Uint::<128, 2>::from_limbs([0xffffffffffffffff, 0xffffffffffffffff]);
    let b = Uint::<128, 2>::from_limbs([0x1, 0x1]);
    assert_eq!(a.div_rem(b), (Uint::<128, 2>::from_limbs([0xffffffffffffffff, 0x0]), Uint::<128, 2>::from_limbs([0x0, 0x0])));
    assert_eq!(a.checked_div_rem(b), Ok((Uint::<128, 2>::from_limbs([0xffffffffffffffff, 0x0]), Uint::<128, 2>::from_limbs([0x0, 0x0]))));
    assert_eq!(a.checked_div(b), Some(Uint::<128, 2>::from_limbs([0xffffffffffffffff, 0x0])));
    assert_eq!(a.checked_rem(b), Some(Uint::<128, 2>::from_limbs([0x0, 0x0])));
    let a = Uint::<128, 2>::from_limbs([0xffffffffffffffff, 0xffffffffffffffff]);
    let b = Uint::<128, 2>::from_limbs([0x1, 0x8000000000000000]);
    assert_eq!(a.div_rem(b), (Uint::<128, 2>::from_limbs([0x1, 0x0]), Uint::<128, 2>::from_limbs([0xfffffffffffffffe, 0x7fffffffffffffff])));
    assert_eq!(a.checked_div_rem(b), Ok((Uint::<128, 2>::from_limbs([0x1, 0x0]), Uint::<128, 2>::from_limbs([0xfffffffffffffffe, 0x7fffffffffffffff]))));
    assert_eq!(a.checked_div(b), Some(Uint::<128, 2>::from_limbs([0x1, 0x0])));
    assert_eq!(a.checked_rem(b), Some(Uint::<128, 2>::from_limbs([0xfffffffffffffffe, 0x7fffffffffffffff])));
    let a = Uint::<128, 2>::from_limbs([0x0, 0x8000000000000000]);
    let b = Uint::<128, 2>::from_limbs([0xffffffffffffffff, 0x1]);
    assert_eq!(a.div_rem(b), (Uint::<128, 2>::from_limbs([0x4000000000000000, 0x0]), Uint::<128, 2>::from_limbs([0x4000000000000000, 0x0])));
    assert_eq!(a.checked_div_rem(b), Ok((Uint::<128, 2>::from_limbs([0x4000000000000000, 0x0]), Uint::<128, 2>::from_limbs([0x4000000000000000, 0x0]))));
    assert_eq!(a.checked_div(b), Some(Uint::<128, 2>::from_limbs([0x4000000000000000, 0x0])));
    assert_eq!(a.checked_rem(b), Some(Uint::<128, 2>::from_limbs([0x4000000000000000, 0x0])));
    let a = Uint::<128, 2>::from_limbs([0x0, 0x7fffffffffffffff]);
    let b = Uint::<128, 2>::from_limbs([0x1, 0x8000000000000000]);
    assert_eq!(a.div_rem(b), (Uint::<128, 2>::from_limbs([0x0, 0x0]), Uint::<128, 2>::from_limbs([0x0, 0x7fffffffffffffff])));
    assert_eq!(a.checked_div_rem(b), Ok((Uint::<128, 2>::from_limbs([0x0, 0x0]), Uint::<128, 2>::from_limbs([0x0, 0x7fffffffffffffff]))));
    assert_eq!(a.checked_div(b), Some(Uint::<128, 2>::from_limbs([0x0, 0x0])));
    assert_eq!(a.checked_rem(b), Some(Uint::<128, 2>::from_limbs([0x0, 0x7fffffffffffffff])));
    let a = Uint::<128, 2>::from_limbs([0x0, 0x8000000000000000]);
    let b = Uint::<128, 2>::from_limbs([0x8000000000000000, 0x1]);
    assert_eq!(a.div_rem(b), (Uint::<128, 2>::from_limbs([0x5555555555555555, 0x0]), Uint::<128, 2>::from_limbs([0x8000000000000000, 0x0])));
    assert_eq!(a.checked_div_rem(b), Ok((Uint::<128, 2>::from_limbs([0x5555555555555555, 0x0]), Uint::<128, 2>::from_limbs([0x8000000000000000, 0x0]))));
    assert_eq!(a.checked_div(b), Some(Uint::<128, 2>::from_limbs([0x5555555555555555, 0x0])));
    assert_eq!(a.checked_rem(b), Some(Uint::<128, 2>::from_limbs([0x8000000000000000, 0x0])));
    let a = Uint::<128, 2>::from_limbs([0x0, 0xffffffffffffffff]);
    let b = Uint::<128, 2>::from_limbs([0xffffffffffffffff, 0x1]);
    assert_eq!(a.div_rem(b), (Uint::<128, 2>::from_limbs([0x7fffffffffffffff, 0x0]), Uint::<128, 2>::from_limbs([0x7fffffffffffffff, 0x1])));
    assert_eq!(a.checked_div_rem(b), Ok((Uint::<128, 2>::from_limbs([0x7fffffffffffffff, 0x0]), Uint::<128, 2>::from_limbs([0x7fffffffffffffff, 0x1]))));
    assert_eq!(a.checked_div(b), Some(Uint::<128, 2>::from_limbs([0x7fffffffffffffff, 0x0])));
    assert_eq!(a.checked_rem(b), Some(Uint::<128, 2>::from_limbs([0x7fffffffffffffff, 0x1])));
}

#[test]
fn div_rem_256_bits() {
    let a = Uint::<256, 4>::from_limbs([0xc9cbd203049489f0, 0xa6195746e98deecd, 0x0, 0x0]);
    let b = Uint::<256, 4>::from_limbs([0xced511479dddc02e, 0xecd1e1e951dcb87f, 0x1bf17663a5456bec, 0x0]);
    assert_eq!(a.div_rem(b), (Uint::<256, 4>::from_limbs([0x0, 0x0, 0x0, 0x0]), Uint::<256, 4>::from_limbs([0xc9cbd203049489f0, 0xa6195746e98deecd, 0x0, 0x0])));
    assert_eq!(a.checked_div_rem(b), Ok((Uint::<256, 4>::from_limbs([0x0, 0x0, 0x0, 0x0]), Uint::<256, 4>::from_limbs([0xc9cbd203049489f0, 0xa6195746e98deecd, 0x0, 0x0]))));
    assert_eq!(a.checked_div(b), Some(Uint::<256, 4>::from_limbs([0x0, 0x0, 0x0, 0x0])));
    assert_eq!(a.checked_rem(b), Some(Uint::<256, 4>::from_limbs([0xc9cbd203049489f0, 0xa6195746e98deecd, 0x0, 0x0])));
    let a = Uint::<256, 4>::from_limbs([0xe85c9f6552d5bed2, 0xfc9faa446e096c47, 0x0, 0x0]);
    let b = Uint::<256, 4>::from_limbs([0x1, 0x0, 0x0, 0x0]);
    assert_eq!(a.div_rem(b), (Uint::<256, 4>::from_limbs([0xe85c9f6552d5bed2, 0xfc9faa446e096c47, 0x0, 0x0]), Uint::<256, 4>::from_limbs([0x0, 0x0, 0x0, 0x0])));
    assert_eq!(a.checked_div_rem(b), Ok((Uint::<256, 4>::from_limbs([0xe85c9f6552d5bed2, 0xfc9faa446e096c47, 0x0, 0x0]), Uint::<256, 4>::from_limbs([0x0, 0x0, 0x0, 0x0]))));
    assert_eq!(a.checked_div(b), Some(Uint::<256, 4>::from_limbs([0xe85c9f6552d5bed2, 0xfc9faa446e096c47, 0x0, 0x0])));
    assert_eq!(a.checked_rem(b), Some(Uint::<256, 4>::from_limbs([0x0, 0x0, 0x0, 0x0])));
    let a = Uint::<256, 4>::from_limbs([0xffffffffffffffff, 0xffffffffffffffff, 0xffffffffffffffff, 0xffffffffffffffff]);
    let b = Uint::<256, 4>::from_limbs([0x1, 0x0, 0x0, 0x0]);
    assert_eq!(a.div_rem(b), (Uint::<256, 4>::from_limbs([0xffffffffffffffff, 0xffffffffffffffff, 0xffffffffffffffff, 0xffffffffffffffff]), Uint::<256, 4>::from_limbs([0x0, 0x0, 0x0, 0x0])));
    assert_eq!(a.checked_div_rem(b), Ok((Uint::<256, 4>::from_limbs([0xffffffffffffffff, 0xffffffffffffffff, 0xffffffffffffffff, 0xffffffffffffffff]), Uint::<256, 4>::from_limbs([0x0, 0x0, 0x0, 0x0]))));
    assert_eq!(a.checked_div(b), Some(Uint::<256, 4>::from_limbs([0xffffffffffffffff, 0xffffffffffffffff, 0xffffffffffffffff, 0xffffffffffffffff])));
    assert_eq!(a.checked_rem(b), Some(Uint::<256, 4>::from_limbs([0x0, 0x0, 0x0, 0x0])));
    let a = Uint::<256, 4>::from_limbs([0xffffffffffffffff, 0xffffffffffffffff, 0xffffffffffffffff, 0xffffffffffffffff]);
    let b = Uint::<256, 4>::from_limbs([0xffffffffffffffff, 0xffffffffffffffff, 0xffffffffffffffff, 0xffffffffffffffff]);
    assert_eq!(a.div_rem(b), (Uint::<256, 4>::from_limbs([0x1, 0x0, 0x0, 0x0]), Uint::<256, 4>::from_limbs([0x0, 0x0, 0x0, 0x0])));
    assert_eq!(a.checked_div_rem(b), Ok((Uint::<256, 4>::from_limbs([0x1, 0x0, 0x0, 0x0]), Uint::<256, 4>::from_limbs([0x0, 0x0, 0x0, 0x0]))));
    assert_eq!(a.checked_div(b), Some(Uint::<256, 4>::from_limbs([0x1, 0x0, 0x0, 0x0])));
    assert_eq!(a.checked_rem(b), Some(Uint::<256, 4>::from_limbs([0x0, 0x0, 0x0, 0x0])));
    let a = Uint::<256, 4>::from_limbs([0x0, 0x0, 0x0, 0x0]);
    let b = Uint::<256, 4>::from_limbs([0xffffffffffffffff, 0xffffffffffffffff, 0xffffffffffffffff, 0xffffffffffffffff]);
    assert_eq!(a.div_rem(b), (Uint::<256, 4>::from_limbs([0x0, 0x0, 0x0, 0x0]), Uint::<256, 4>::from_limbs([0x0, 0x0, 0x0, 0x0])));
    assert_eq!(a.checked_div_rem(b), Ok((Uint::<256, 4>::from_limbs([0x0, 0x0, 0x0, 0x0]), Uint::<256, 4>::from_limbs([0x0, 0x0, 0x0, 0x0]))));
    assert_eq!(a.checked_div(b), Some(Uint::<256, 4>::from_limbs([0x0, 0x0, 0x0, 0x0])));
    assert_eq!(a.checked_rem(b), Some(Uint::<256, 4>::from_limbs([0x0, 0x0, 0x0, 0x0])));
    let a = Uint::<256, 4>::from_limbs([0x849b3da049e07752, 0xf60106b7fa83cb94, 0xff3416d0ad06e8bd, 0xca70c2cad61d1405]);
    let b = Uint::<256, 4>::from_limbs([0x3, 0x0, 0x0, 0x0]);
    assert_eq!(a.div_rem(b), (Uint::<256, 4>::from_limbs([0x8189148ac34ad270, 0x52005792a8d69931, 0x55115cf039acf83f, 0x437aeb98f209b157]), Uint::<256, 4>::from_limbs([0x2, 0x0, 0x0, 0x0])));
    assert_eq!(a.checked_div_rem(b), Ok((Uint::<256, 4>::from_limbs([0x8189148ac34ad270, 0x52005792a8d69931, 0x55115cf039acf83f, 0x437aeb98f209b157]), Uint::<256, 4>::from_limbs([0x2, 0x0, 0x0, 0x0]))));
    assert_eq!(a.checked_div(b), Some(Uint::<256, 4>::from_limbs([0x8189148ac34ad270, 0x52005792a8d69931, 0x55115cf039acf83f, 0x437aeb98f209b157])));
    assert_eq!(a.checked_rem(b), Some(Uint::<256, 4>::from_limbs([0x2, 0x0, 0x0, 0x0])));
    let a = Uint::<256, 4>::from_limbs([0x5, 0x0, 0x0, 0x0]);
    let b = Uint::<256, 4>::from_limbs([0x0, 0x0, 0x0, 0x0]);
    assert_eq!(a.checked_div_rem(b), Err(DivisionByZero));
    assert_eq!(a.checked_div(b), None);
    assert_eq!(a.checked_rem(b), None);
    let a = Uint::<256, 4>::from_limbs([0xffffffffffffffff, 0xffffffffffffffff, 0xffffffffffffffff, 0xffffffffffffffff]);
    let b = Uint::<256, 4>::from_limbs([0x1, 0x1, 0x0, 0x0]);
    assert_eq!(a.div_rem(b), (Uint::<256, 4>::from_limbs([0xffffffffffffffff, 0x0, 0xffffffffffffffff, 0x0]), Uint::<256, 4>::from_limbs([0x0, 0x0, 0x0, 0x0])));
    assert_eq!(a.checked_div_rem(b), Ok((Uint::<256, 4>::from_limbs([0xffffffffffffffff, 0x0, 0xffffffffffffffff, 0x0]), Uint::<256, 4>::from_limbs([0x0, 0x0, 0x0, 0x0]))));
    assert_eq!(a.checked_div(b), Some(Uint::<256, 4>::from_limbs([0xffffffffffffffff, 0x0, 0xffffffffffffffff, 0x0])));
    assert_eq!(a.checked_rem(b), Some(Uint::<256, 4>::from_limbs([0x0, 0x0, 0x0, 0x0])));
    let a = Uint::<256, 4>::from_limbs([0xffffffffffffffff, 0xffffffffffffffff, 0xffffffffffffffff, 0xffffffffffffffff]);
    let b = Uint::<256, 4>::from_limbs([0x1, 0x0, 0x0, 0x8000000000000000]);
    assert_eq!(a.div_rem(b), (Uint::<256, 4>::from_limbs([0x1, 0x0, 0x0, 0x0]), Uint::<256, 4>::from_limbs([0xfffffffffffffffe, 0xffffffffffffffff, 0xffffffffffffffff, 0x7fffffffffffffff])));
    assert_eq!(a.checked_div_rem(b), Ok((Uint::<256, 4>::from_limbs([0x1, 0x0, 0x0, 0x0]), Uint::<256, 4>::from_limbs([0xfffffffffffffffe, 0xffffffffffffffff, 0xffffffffffffffff, 0x7fffffffffffffff]))));
    assert_eq!(a.checked_div(b), Some(Uint::<256, 4>::from_limbs([0x1, 0x0, 0x0, 0x0])));
    assert_eq!(a.checked_rem(b), Some(Uint::<256, 4>::from_limbs([0xfffffffffffffffe, 0xffffffffffffffff, 0xffffffffffffffff, 0x7fffffffffffffff])));
    let a = Uint::<256, 4>::from_limbs([0x0, 0x0, 0x0, 0x8000000000000000]);
    let b = Uint::<256, 4>::from_limbs([0xffffffffffffffff, 0x1, 0x0, 0x0]);
    assert_eq!(a.div_rem(b), (Uint::<256, 4>::from_limbs([0x1000000000000000, 0x2000000000000000, 0x4000000000000000, 0x0]), Uint::<256, 4>::from_limbs([0x1000000000000000, 0x0, 0x0, 0x0])));
    assert_eq!(a.checked_div_rem(b), Ok((Uint::<256, 4>::from_limbs([0x1000000000000000, 0x2000000000000000, 0x4000000000000000, 0x0]), Uint::<256, 4>::from_limbs([0x1000000000000000, 0x0, 0x0, 0x0]))));
    assert_eq!(a.checked_div(b), Some(Uint::<256, 4>::from_limbs([0x1000000000000000, 0x2000000000000000, 0x4000000000000000, 0x0])));
    assert_eq!(a.checked_rem(b), Some(Uint::<256, 4>::from_limbs([0x1000000000000000, 0x0, 0x0, 0x0])));
    let a = Uint::<256, 4>::from_limbs([0x0, 0x7fffffffffffffff, 0x0, 0x0]);
    let b = Uint::<256, 4>::from_limbs([0x1, 0x8000000000000000, 0x0, 0x0]);
    assert_eq!(a.div_rem(b), (Uint::<256, 4>::from_limbs([0x0, 0x0, 0x0, 0x0]), Uint::<256, 4>::from_limbs([0x0, 0x7fffffffffffffff, 0x0, 0x0])));
    assert_eq!(a.checked_div_rem(b), Ok((Uint::<256, 4>::from_limbs([0x0, 0x0, 0x0, 0x0]), Uint::<256, 4>::from_limbs([0x0, 0x7fffffffffffffff, 0x0, 0x0]))));
    assert_eq!(a.checked_div(b), Some(Uint::<256, 4>::from_limbs([0x0, 0x0, 0x0, 0x0])));
    assert_eq!(a.checked_rem(b), Some(Uint::<256, 4>::from_limbs([0x0, 0x7fffffffffffffff, 0x0, 0x0])));
    let a = Uint::<256, 4>::from_limbs([0x0, 0x8000000000000000, 0x0, 0x0]);
    let b = Uint::<256, 4>::from_limbs([0x8000000000000000, 0x1, 0x0, 0x0]);
    assert_eq!(a.div_rem(b), (Uint::<256, 4>::from_limbs([0x5555555555555555, 0x0, 0x0, 0x0]), Uint::<256, 4>::from_limbs([0x8000000000000000, 0x0, 0x0, 0x0])));
    assert_eq!(a.checked_div_rem(b), Ok((Uint::<256, 4>::from_limbs([0x5555555555555555, 0x0, 0x0, 0x0]), Uint::<256, 4>::from_limbs([0x8000000000000000, 0x0, 0x0, 0x0]))));
    assert_eq!(a.checked_div(b), Some(Uint::<256, 4>::from_limbs([0x5555555555555555, 0x0, 0x0, 0x0])));
    assert_eq!(a.checked_rem(b), Some(Uint::<256, 4>::from_limbs([0x8000000000000000, 0x0, 0x0, 0x0])));
    let a = Uint::<256, 4>::from_limbs([0x0, 0xffffffffffffffff, 0xffffffffffffffff, 0xffffffffffffffff]);
    let b = Uint::<256, 4>::from_limbs([0xffffffffffffffff, 0x1, 0x0, 0x0]);
    assert_eq!(a.div_rem(b), (Uint::<256, 4>::from_limbs([0x1fffffffffffffff, 0x4000000000000000, 0x8000000000000000, 0x0]), Uint::<256, 4>::from_limbs([0x1fffffffffffffff, 0x1, 0x0, 0x0])));
    assert_eq!(a.checked_div_rem(b), Ok((Uint::<256, 4>::from_limbs([0x1fffffffffffffff, 0x4000000000000000, 0x8000000000000000, 0x0]), Uint::<256, 4>::from_limbs([0x1fffffffffffffff, 0x1, 0x0, 0x0]))));
    assert_eq!(a.checked_div(b), Some(Uint::<256, 4>::from_limbs([0x1fffffffffffffff, 0x4000000000000000, 0x8000000000000000, 0x0])));
    assert_eq!(a.checked_rem(b), Some(Uint::<256, 4>::from_limbs([0x1fffffffffffffff, 0x1, 0x0, 0x0])));
}

#[test]
fn zero_width_arithmetic() {
    let z = Uint::<0, 0>::zero();
    assert_eq!(z.overflowing_add(z), (z, false));
    assert_eq!(z.overflowing_sub(z), (z, false));
    assert_eq!(z.overflowing_mul(z), (z, false));
    assert_eq!(z.checked_div_rem(z), Err(DivisionByZero));
    assert!(z.is_zero());
}

#[test]
fn addition_wraps_at_the_bit_size() {
    let a = Uint::<8, 1>::from_limbs([200]);
    let b = Uint::<8, 1>::from_limbs([100]);
    assert_eq!(a.wrapping_add(b), Uint::from_limbs([44]));
    assert_eq!(a.overflowing_add(b), (Uint::from_limbs([44]), true));
    assert_eq!(a.checked_add(b), None);
    assert_eq!(a.saturating_add(b), Uint::max_value());
    assert_eq!(b.overflowing_sub(a), (Uint::from_limbs([156]), true));
}

#[test]
fn quotient_and_remainder_rebuild_the_dividend() {
    let a = Uint::<192, 3>::from_limbs([
        0x0123_4567_89ab_cdef,
        0xfedc_ba98_7654_3210,
        0xffff_0000_ffff_0000,
    ]);
    let divisors = [
        Uint::<192, 3>::from_limbs([7, 0, 0]),
        Uint::<192, 3>::from_limbs([0xffff_ffff_ffff_ffff, 0x8000_0000_0000_0001, 0]),
        Uint::<192, 3>::from_limbs([1, 0, 0xffff_0000_ffff_0000]),
        Uint::<192, 3>::from_limbs([0, 0, 1]),
    ];
    for b in divisors {
        let (q, r) = a.div_rem(b);
        assert_eq!(q.checked_mul(b).and_then(|p| p.checked_add(r)), Some(a));
        assert!(r.lt(&b));
    }
}
