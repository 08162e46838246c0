use kaiseki::list::List;

static FILE_HEADER: &'static str = "//! A module header.\n//!\n//! With several lines of prose.";
static BODY: &'static str = "fn body() {\n    let x = 1;\n    let y = 2;\n    x + y\n}";

#[test]
fn test_lines() {
    let mut lines: List<String> = List::new();

    for line in FILE_HEADER.lines() {
        lines.push_back(line.to_string());
    }

    for line in BODY.lines() {
        lines.push_back(line.to_string());
    }

    let mut expected = FILE_HEADER.lines().chain(BODY.lines());
    while let Some(line1) = lines.pop_front() {
        let line2 = expected.next().unwrap();
        assert_eq!(&line1 as &str, line2);
    }
    assert!(expected.next().is_none());
}

#[test]
fn test_push_front_order() {
    let mut dl: List<u32> = List::new();

    dl.push_front(4);
    dl.push_front(3);
    dl.push_front(2);
    dl.push_front(1);

    assert_eq!(dl.len(), 4);
    let collected: Vec<u32> = dl.into_vec();
    assert_eq!(collected, vec![1, 2, 3, 4]);
}

#[test]
fn test_push_back_order() {
    let mut dl: List<u32> = List::new();

    dl.push_back(1);
    dl.push_back(2);
    dl.push_back(3);
    dl.push_back(4);

    let collected: Vec<u32> = dl.into_vec();
    assert_eq!(collected, vec![1, 2, 3, 4]);
}

#[test]
fn test_pop_both_ends() {
    let mut dl: List<u32> = List::new();
    assert!(dl.is_empty());
    assert_eq!(dl.pop_front(), None);
    assert_eq!(dl.pop_back(), None);

    dl.push_back(1);
    dl.push_back(2);
    dl.push_back(3);

    assert_eq!(dl.front(), Some(&1));
    assert_eq!(dl.back(), Some(&3));
    assert_eq!(dl.pop_front(), Some(1));
    assert_eq!(dl.pop_back(), Some(3));
    assert_eq!(dl.pop_front(), Some(2));
    assert!(dl.is_empty());
}

#[test]
fn test_append_front() {
    let mut dl1: List<u32> = List::new();
    let mut dl2: List<u32> = List::new();

    dl1.push_back(3);
    dl1.push_back(4);
    dl2.push_back(1);
    dl2.push_back(2);

    dl1.append_front(&mut dl2);

    assert!(dl2.is_empty());
    assert_eq!(dl1.into_vec(), vec![1, 2, 3, 4]);
}

#[test]
fn test_append_back() {
    let mut dl1: List<u32> = List::new();
    let mut dl2: List<u32> = List::new();

    dl1.push_back(1);
    dl1.push_back(2);
    dl2.push_back(3);
    dl2.push_back(4);

    dl1.append_back(&mut dl2);

    assert!(dl2.is_empty());
    assert_eq!(dl1.into_vec(), vec![1, 2, 3, 4]);
}

#[test]
fn test_iter_walks_front_to_back() {
    let mut dl: List<u32> = List::new();
    dl.push_back(10);
    dl.push_back(20);
    dl.push_back(30);

    let mut it = dl.iter();
    assert_eq!(it.len(), 3);
    assert_eq!(it.next(), Some(&10));
    assert_eq!(it.next(), Some(&20));
    assert_eq!(it.len(), 1);
    assert_eq!(it.next(), Some(&30));
    assert_eq!(it.next(), None);
    assert_eq!(it.len(), 0);
}

#[test]
fn test_iter_next_back() {
    let mut dl: List<u32> = List::new();
    dl.push_back(1);
    dl.push_back(2);
    dl.push_back(3);

    let mut it = dl.iter();
    assert_eq!(it.next_back(), Some(&3));
    assert_eq!(it.next(), Some(&1));
    assert_eq!(it.next_back(), Some(&2));
    assert_eq!(it.next_back(), None);
    assert_eq!(it.next(), None);
}

#[test]
fn test_into_iter_both_ends() {
    let mut dl: List<u32> = List::new();
    dl.push_back(1);
    dl.push_back(2);
    dl.push_back(3);
    dl.push_back(4);

    let mut it = dl.into_iter();
    assert_eq!(it.len(), 4);
    assert_eq!(it.next(), Some(1));
    assert_eq!(it.next_back(), Some(4));
    assert_eq!(it.next(), Some(2));
    assert_eq!(it.next_back(), Some(3));
    assert_eq!(it.next(), None);
    assert_eq!(it.next_back(), None);
}
