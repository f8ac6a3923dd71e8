use cube_split::cube::Cube;
use rand::RngExt;

#[test]
fn cube_from_to_string() {
    let cube_str = "n120_n5_34_32_1";
    assert_eq!(cube_str, Cube::from_text(cube_str).unwrap().to_text());
}

#[test]
fn cube_from_to_string2() {
    let cube_str = "";
    assert_eq!(cube_str, Cube::from_text(cube_str).unwrap().to_text());
}

#[test]
fn cube_to_from_string() {
    let cube = Cube(vec![-34, 29, 32, 91, -4]);
    assert_eq!(cube, Cube::from_text(cube.to_text().as_str()).unwrap())
}

#[test]
fn cube_to_from_string2() {
    let cube = Cube(vec![]);
    assert_eq!(cube, Cube::from_text(cube.to_text().as_str()).unwrap())
}

#[test]
fn random_cube_to_from_string_tests() {
    let mut rng = rand::rng();
    for _ in 0..10000 {
        let cube_size: u8 = rng.random_range(0..20);
        let mut cube_vec = Vec::with_capacity(cube_size as usize);
        for _ in 0..cube_size {
            let cube_elt: i32 = rng.random_range(-1000..1000);
            if cube_elt == 0 {
                continue;
            }
            cube_vec.push(cube_elt);
        }

        let cube = Cube(cube_vec);
        assert_eq!(cube, Cube::from_text(cube.to_text().as_str()).unwrap());
        assert_eq!(
            cube.to_text(),
            Cube::from_text(cube.to_text().as_str()).unwrap().to_text()
        );
    }
}

#[test]
fn cube_parse_rejects_garbage() {
    assert!(Cube::from_text("5n").is_none());
    assert!(Cube::from_text("1__2").is_none());
    assert!(Cube::from_text("_").is_none());
    assert!(Cube::from_text("1_x").is_none());
}

#[test]
fn cube_extend_contains_both_signs() {
    let c = Cube(vec![3, -7]);
    let (pos, neg) = c.extend(5);
    assert!(pos.contains_var(5));
    assert!(neg.contains_var(-5));
    assert_eq!(pos, Cube(vec![3, -7, 5]));
    assert_eq!(neg, Cube(vec![3, -7, -5]));
}

#[test]
fn cube_subsumption() {
    let a = Cube(vec![1]);
    let b = Cube(vec![1, 2]);
    let c = Cube(vec![1, -2]);
    assert!(a.subsumes(&a));
    assert!(a.subsumes(&b));
    assert!(a.subsumes(&c));
    assert!(!b.subsumes(&c));
    assert!(!b.subsumes(&a));
    // order does not matter for subsumption, only membership
    let d = Cube(vec![2, 1]);
    assert!(b.subsumes(&d));
    assert!(d.subsumes(&b));
}

#[test]
fn cube_extend_vars_appends_in_order() {
    let c = Cube(vec![4]);
    let e = c.extend_vars(vec![-9, 2]);
    assert_eq!(e, Cube(vec![4, -9, 2]));
}
