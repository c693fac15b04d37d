use cdiff::fragments::{Fragments, SizedFragments};

fn number_words(nums: Vec<u8>) -> Vec<String> {
    nums.iter().map(|x| x.to_string()).collect()
}

fn collect_sized(nums: Vec<u8>, size: usize) -> Vec<Vec<u8>> {
    let words = number_words(nums);
    let mut it = SizedFragments::new(&words, size);
    let mut out = Vec::new();
    while let Some(f) = it.next() {
        out.push(f.iter().map(|w| w.parse::<u8>().unwrap()).collect());
    }
    out
}

fn collect_fragments(nums: Vec<u8>) -> Vec<Vec<u8>> {
    let words = number_words(nums);
    let mut it = Fragments::new(&words);
    let mut out = Vec::new();
    while let Some(f) = it.next() {
        out.push(f.iter().map(|w| w.parse::<u8>().unwrap()).collect());
    }
    out
}

#[test]
fn test_sized_fragments() {
    assert_eq!(
        collect_sized(vec![1, 2, 3, 4], 1),
        [vec![1], vec![2], vec![3], vec![4]].to_vec()
    );
    assert_eq!(
        collect_sized(vec![1, 2, 3, 4], 2),
        [vec![1, 2], vec![2, 3], vec![3, 4]].to_vec()
    );
    assert_eq!(
        collect_sized(vec![1, 2, 3, 4], 3),
        [vec![1, 2, 3], vec![2, 3, 4]].to_vec()
    );
    assert_eq!(collect_sized(vec![1, 2, 3, 4], 4), [vec![1, 2, 3, 4]].to_vec());
}

#[test]
fn test_fragments() {
    assert_eq!(
        collect_fragments(vec![1, 2, 3, 4]),
        [
            vec![1, 2, 3, 4],
            vec![1, 2, 3],
            vec![2, 3, 4],
            vec![1, 2],
            vec![2, 3],
            vec![3, 4],
            vec![1],
            vec![2],
            vec![3],
            vec![4],
        ]
        .to_vec()
    );
}

#[test]
fn fragment_sizes_descend() {
    let sizes: Vec<usize> = collect_fragments(vec![1, 2, 3, 4]).iter().map(|f| f.len()).collect();
    assert_eq!(sizes, vec![4, 3, 3, 2, 2, 2, 1, 1, 1, 1]);
    assert_eq!(sizes.len(), 4 * 5 / 2);
}

#[test]
fn no_fragments_of_nothing() {
    let empty: Vec<Vec<u8>> = vec![];
    assert_eq!(collect_fragments(vec![]), empty);
}
