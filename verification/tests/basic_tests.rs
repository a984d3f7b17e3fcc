//! Plain unit tests over vectors, byte juggling and the size heuristic.

use mini_lsm::table::{BlockMeta, SsTableBuilder};

#[test]
fn test_connect() {
    let mut u8_arr = vec![];
    for _ in 0..2 {
        u8_arr.push(2u8);
    }
    let mut u16_arr = vec![];
    for _ in 0..2 {
        u16_arr.push(257u16);
    }
    let aaa: Vec<u8> = u16_arr.iter().flat_map(|byte| byte.to_le_bytes()).collect();
    println!("{:?}", u8_arr);
    println!("{:?}", aaa);
    let combined_vec: Vec<u8> = u8_arr
        .into_iter()
        .flat_map(|byte| byte.to_le_bytes())
        .chain(u16_arr.into_iter().flat_map(|byte| byte.to_le_bytes()))
        .collect();

    println!("{:?}", combined_vec);
}

#[test]
fn test_vec_order() {
    let arr = vec![1, 2, 3];
    let mut expected = 1;
    for it in arr {
        assert_eq!(it, expected);
        expected += 1;
    }
}

#[derive(Debug)]
struct Person(String);

fn foo(arr: &[Person]) {
    let _ = arr.iter().map(|p| {
        println!("{:?}", p);
    });
}

#[test]
fn test_iter() {
    let arr = vec![Person(String::from("a")), Person(String::from("b"))];
    foo(arr.as_ref());
}

#[test]
fn test_estimated_size() {
    let mut sst_builder = SsTableBuilder::new(100);
    for _ in 0..5 {
        sst_builder.meta.push(BlockMeta {
            offset: 20,
            first_key: Vec::new(),
            last_key: Vec::new(),
        });
    }
    assert_eq!(sst_builder.estimated_size(), 20 * 5);
}
