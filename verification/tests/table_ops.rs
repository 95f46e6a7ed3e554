use rand::distributions::Standard;
use rand::distributions::Distribution;
use rand::rngs::ThreadRng;
use rand::Rng;
use std::collections::HashMap;
use std::fmt::Debug;

use sokoban_kernel::table::Table;

/*
    Tested on types:
    * i32
    * bool
    * u8
    * u32
*/

const CREATION_ROUNDS: usize = 10;
const MODIFICATION_ROUNDS: usize = 3;
const TABLE_SIZES: [(usize, usize); 17] = [
    (0, 0),
    (1, 1),
    (10, 10),
    (10, 2),
    (2, 10),
    (100, 2),
    (2, 100),
    (11, 34),
    (34, 11),
    (70, 2),
    (2, 70),
    (0, 12),
    (0, 20),
    (0, 50),
    (12, 0),
    (20, 0),
    (50, 0),
];

fn fill_table_randomly<T>(
    table: &mut Table<T>,
    rng: &mut ThreadRng,
    mut store_mods: Option<&mut HashMap<(usize, usize), T>>,
) where
    T: Copy + Default + Eq + Debug,
    Standard: Distribution<T>,
{
    let width = table.width();
    let height = table.height();

    for _ in 0..(width * height * MODIFICATION_ROUNDS) {
        let (x, y) = (rng.gen_range(0..width), rng.gen_range(0..height));
        let v = rng.gen();

        if let Some(store_mods) = store_mods.as_mut() {
            store_mods.insert((x, y), v);
        }

        table.set(x, y, v);
    }
}

fn check_table_contents<T, F>(table: &mut Table<T>, content: F)
where
    T: Eq + Debug,
    F: Fn(usize, usize) -> T,
{
    for x in 0..table.width() {
        for y in 0..table.height() {
            let v = table.get(x, y).expect("Must be in range");
            assert_eq!(v, &content(x, y));

            let v = table.get_mut(x, y).expect("Must be in range");
            assert_eq!(v, &content(x, y));
        }
    }
}

#[test]
fn test_new() {
    Table::<i32>::new();
    Table::<bool>::new();
    Table::<u8>::new();
    Table::<u32>::new();
}

fn test_new_filled_impl<T>()
where
    T: Default + Eq + Debug,
{
    for (width, height) in TABLE_SIZES {
        let mut table = Table::<T>::new_filled(width, height);
        check_table_contents(&mut table, |_, _| T::default());
    }
}

#[test]
fn test_new_filled() {
    test_new_filled_impl::<i32>();
    test_new_filled_impl::<bool>();
    test_new_filled_impl::<u8>();
    test_new_filled_impl::<u32>();
}

fn test_set_vals_impl<T>(rng: &mut ThreadRng)
where
    T: Copy + Default + Eq + Debug,
    Standard: Distribution<T>,
{
    for (width, height) in TABLE_SIZES {
        let mut store_mods = HashMap::new();
        let mut table = Table::<T>::new_filled(width, height);

        fill_table_randomly(&mut table, rng, Some(&mut store_mods));
        check_table_contents(&mut table, |x, y| match store_mods.get(&(x, y)) {
            Some(x) => *x,
            None => T::default(),
        });
    }
}

#[test]
fn test_set_vals() {
    let mut rng = ThreadRng::default();
    test_set_vals_impl::<i32>(&mut rng);
    test_set_vals_impl::<bool>(&mut rng);
    test_set_vals_impl::<u8>(&mut rng);
    test_set_vals_impl::<u32>(&mut rng);
}

fn test_new_filled_with_impl<T>(rng: &mut ThreadRng)
where
    T: Eq + Debug + Copy,
    Standard: Distribution<T>,
{
    for (width, height) in TABLE_SIZES {
        for _ in 0..CREATION_ROUNDS {
            let x = rng.gen();
            let mut table = Table::<T>::new_filled_with(width, height, x);
            check_table_contents(&mut table, |_, _| x);
        }
    }
}

#[test]
fn test_new_filled_with() {
    let mut rng = ThreadRng::default();
    test_new_filled_with_impl::<i32>(&mut rng);
    test_new_filled_with_impl::<bool>(&mut rng);
    test_new_filled_with_impl::<u8>(&mut rng);
    test_new_filled_with_impl::<u32>(&mut rng);
}

fn test_fill_with_impl<T>(rng: &mut ThreadRng)
where
    T: Eq + Debug + Copy + Default,
    Standard: Distribution<T>,
{
    for (width, height) in TABLE_SIZES {
        let mut table = Table::<T>::new_filled(width, height);
        for _ in 0..CREATION_ROUNDS {
            let x = rng.gen();
            table.fill(x);
            check_table_contents(&mut table, |_, _| x);
        }
    }
}

#[test]
fn test_fill_with() {
    let mut rng = ThreadRng::default();
    test_fill_with_impl::<i32>(&mut rng);
    test_fill_with_impl::<bool>(&mut rng);
    test_fill_with_impl::<u8>(&mut rng);
    test_fill_with_impl::<u32>(&mut rng);
}

#[test]
fn table_resize_discards_contents() {
    let mut table: Table<u8> = Table::new_filled_with(2, 2, 7);
    assert_eq!(table.get(1, 1), Some(&7));
    table.resize(3, 2);
    assert_eq!(table.width(), 3);
    assert_eq!(table.height(), 2);
    for x in 0..3 {
        for y in 0..2 {
            assert_eq!(table.get(x, y), Some(&0));
        }
    }
    table.resize_with(1, 1, 9);
    assert_eq!(table.get(0, 0), Some(&9));
    table.fill(4);
    assert_eq!(table.get(0, 0), Some(&4));
    let mut b: Table<bool> = Table::new_filled_with(2, 1, true);
    b.reset();
    assert_eq!(b.get(0, 0), Some(&false));
    assert_eq!(b.get(1, 0), Some(&false));
}
