use dugong_mesh::PrimitiveMesh;

#[test]
fn test_primitive_mesh_is_send_sync() {
    fn assert_send_sync<T: Send + Sync>() {}
    assert_send_sync::<PrimitiveMesh<[f64; 3]>>();
}

struct Celsius(f64);

impl dugong_mesh::Quantity for Celsius {
    type Value = f64;
}

fn raw<Q: dugong_mesh::Quantity<Value = f64>>(_q: &Q, v: Q::Value) -> f64 {
    v
}

#[test]
fn quantity_names_the_raw_value_type() {
    let t = Celsius(21.5);
    assert_eq!(raw(&t, t.0), 21.5);
}
