use raytracer::material::DefaultMaterial;

#[test]
fn the_default_material_never_scatters() {
    let material = DefaultMaterial {};
    let scattered: Option<(u32, i32)> = material.scatter(&5, &"anywhere");
    assert_eq!(scattered, None);
    let again: Option<(String, (i32, i32))> = material.scatter(&(1, 2), &0.5f64);
    assert_eq!(again, None);
}
