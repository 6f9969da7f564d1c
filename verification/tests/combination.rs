use patricia::combination::Combinations;
use rand::{thread_rng, Rng};

#[test]
fn makes_all_combinations() {
    let data = vec![vec!['a', 'b', 'c'], vec!['a', 'b'], vec![], vec!['a', 'd']];
    let count = Combinations::count(&data);
    let mut res = Combinations::combine_all(
        String::new(),
        &data,
        |s: &String, c: &char| {
            let mut t = s.clone();
            t.push(*c);
            t
        },
    );
    assert_eq!(res.len(), count);
    res.sort();
    assert_eq!(
        res,
        vec!["aaa", "aad", "aba", "abd", "baa", "bad", "bba", "bbd", "caa", "cad", "cba", "cbd"]
    )
}

#[test]
fn modify_with_combine_inplace() {
    let mut data = vec!["a".to_owned()];
    let alts = vec!['a', 'b'];
    Combinations::combine_inplace(&mut data, &alts, |s: &String, ch: &char| {
        let mut t = s.clone();
        t.push(*ch);
        t
    });
    assert_eq!(data.len(), 2);
    assert_eq!(data, vec!["aa".to_owned(), "ab".to_owned()]);
}

#[test]
fn init_with_combine_inplace() {
    let push = |s: &String, ch: &char| {
        let mut t = s.clone();
        t.push(*ch);
        t
    };
    let mut data = vec![String::new()];
    Combinations::combine_inplace(&mut data, &vec!['a', 'b'], push);
    Combinations::combine_inplace(&mut data, &vec!['a'], push);
    Combinations::combine_inplace(&mut data, &vec!['c'], push);
    assert_eq!(data.len(), 2);
    assert_eq!(data, vec!["aac".to_owned(), "bac".to_owned()]);
}

#[test]
fn counts_all_combinations() {
    let mut r = thread_rng();
    let len: usize = r.gen_range(0..5);
    let mut data: Vec<Vec<u32>> = vec![];
    let mut expected = 1; // no combinations is an acceptable variant
    for _ in 0..len {
        let n: usize = r.gen_range(0..5);
        let mut list = vec![];
        expected *= n.max(1);
        for _ in 0..n {
            list.push(r.gen::<u32>())
        }
        data.push(list);
    }
    let count = Combinations::count(&data);
    println!("Combinations {} {} {:?}", count, len, data);
    assert_eq!(expected, count);
}

#[test]
fn combine_once_applies_to_each() {
    let mut data = vec!["x".to_owned(), "y".to_owned()];
    Combinations::combine_once(&mut data, &'!', |s: &String, ch: &char| {
        let mut t = s.clone();
        t.push(*ch);
        t
    });
    assert_eq!(data, vec!["x!".to_owned(), "y!".to_owned()]);
}

#[test]
fn combine_with_empty_alternatives_keeps_data() {
    let alts: Vec<char> = vec![];
    let res = Combinations::combine("seed".to_owned(), &alts, |s: &String, _c: &char| s.clone());
    assert_eq!(res, vec!["seed".to_owned()]);
}
