use muds::collections::{Append, ConsGetter, Here, IntoRev, There};

#[test]
fn append_cons_lists() {
    let list = (1, (2, ())).append((3, (4, (5, ()))));
    assert_eq!(list, (1, (2, (3, (4, (5, ()))))));
}

#[test]
fn reverse_cons_list() {
    let list = (1, (2, (3, ()))).rev();
    assert_eq!(list, (3, (2, (1, ()))));
}

#[test]
fn get_element_by_type() {
    let mut list = (1f32, (1i32, (1u32, ())));
    let x: &i32 = ConsGetter::<i32, There<Here>>::get(&list);
    assert_eq!(*x, 1);
    *ConsGetter::<i32, There<Here>>::get_mut(&mut list) = 10;
    assert_eq!(list, (1f32, (10i32, (1u32, ()))));
}
