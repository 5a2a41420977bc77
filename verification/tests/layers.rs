use bump::filter::{Layer, Monitorable, Monitoring, SpatialQueryFilter};
use bump::layer::CollisionLayer;

#[test]
fn masks_collide_when_they_share_a_bit() {
    assert!(0b0110u8.collides(&0b0100u8));
    assert!(!0b0110u8.collides(&0b1001u8));
    assert!(0x8000u16.collides(&0xffffu16));
    assert!(!0x0001u32.collides(&0x0002u32));
    assert!((1u64 << 63).collides(&u64::MAX));
    assert!(!(1u128 << 100).collides(&(1u128 << 99)));
    assert!(3usize.collides(&2usize));
}

#[test]
fn empty_mask_collides_with_nothing() {
    assert!(!0u8.collides(&0xffu8));
    assert!(!0u32.collides(&0u32));
    assert!(!u64::MAX.collides(&0u64));
}

#[test]
fn mask_collision_is_mutual() {
    let masks: [u32; 5] = [0, 1, 6, 0xf0, u32::MAX];
    for a in masks {
        for b in masks {
            assert_eq!(a.collides(&b), b.collides(&a));
        }
    }
}

#[test]
fn unit_layer_always_collides() {
    assert!(().collides(&()));
}

#[test]
fn layer_filter_keeps_overlapping_layers() {
    assert!(Layer::<u8>::filter(&0b01, &0b11));
    assert!(!Layer::<u8>::filter(&0b01, &0b10));
}

#[test]
fn monitorable_filter_follows_the_hurtbox() {
    assert!(Monitorable::filter(&(), &true));
    assert!(!Monitorable::filter(&(), &false));
}

#[test]
fn monitoring_filter_follows_the_hitbox() {
    assert!(Monitoring::filter(&true, &()));
    assert!(!Monitoring::filter(&false, &()));
}

#[test]
fn paired_filters_must_both_keep() {
    type Both = (Layer<u8>, Monitorable);
    assert!(Both::filter(&(0b01, ()), &(0b11, true)));
    assert!(!Both::filter(&(0b01, ()), &(0b11, false)));
    assert!(!Both::filter(&(0b01, ()), &(0b10, true)));
    assert!(!Both::filter(&(0b01, ()), &(0b10, false)));
}
