use scene_graph::transform::{Matrix4, Vector3, ONE, ZERO};

#[test]
fn identity_has_ones_on_the_diagonal() {
    let m = Matrix4::identity();
    for i in 0..16 {
        assert_eq!(m.cells[i], if i % 5 == 0 { ONE } else { ZERO });
    }
    assert_eq!(f32::from_bits(ONE), 1.0);
    assert_eq!(f32::from_bits(ZERO), 0.0);
}

#[test]
fn basis_vectors_are_read_from_the_columns() {
    let mut cells = [0u32; 16];
    for i in 0..16 {
        cells[i] = (10 + i as u32) as u32;
    }
    let m = Matrix4 { cells };
    assert_eq!(m.side(), Vector3 { x: 10, y: 11, z: 12 });
    assert_eq!(m.up(), Vector3 { x: 14, y: 15, z: 16 });
    assert_eq!(m.look(), Vector3 { x: 18, y: 19, z: 20 });
    assert_eq!(m.position(), Vector3 { x: 22, y: 23, z: 24 });
}
