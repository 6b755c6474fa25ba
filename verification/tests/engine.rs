use dr::charmap::{Charmap, Charset, InOrOut};
use dr::charrange::CharRange;
use dr::{cheese, compile, consider, eps, nul, sundae, toppings};

#[test]
fn charset_membership() {
    let set = Charset::all();
    assert!("\0abc0932".chars().all(|c| set.contains(&c)));

    let mut set = Charset::new();
    for c in "abcd".chars() {
        set.insert_char(c);
    }
    assert!("\00932".chars().all(|c| !set.contains(&c)));
    assert!("abcd".chars().all(|c| set.contains(&c)));

    let mut set = Charset::new();
    set.insert(CharRange::new('a' as u32, 't' as u32));
    set.insert(CharRange::new('B' as u32, 'Y' as u32));
    assert!("afghBL".chars().all(|c| set.contains(&c)));
    assert!("zZA932".chars().all(|c| !set.contains(&c)));
}

#[test]
fn order_of_ranges() {
    let r1 = CharRange::new('a' as u32, 't' as u32);
    let r2 = CharRange::new('f' as u32, char::MAX as u32);
    assert!(r1 < r2);
}

#[test]
fn eps_matches_empty_string() {
    let mut matcher = compile(eps());
    assert!(matcher.matches(""));
    assert!(!matcher.matches("a"));
}

#[test]
fn basic_matches() {
    let mut matcher = compile(cheese('a', 'b').star());
    for m in ["aaaaa", "abbab", "ababbb"].iter() {
        assert!(matcher.matches(m));
    }
    for m in ["aac", "deefg", "aaAA"].iter() {
        assert!(!matcher.matches(m));
    }

    let mut matcher = compile(sundae("hello"));
    assert!(matcher.matches("hello"));
    for m in ["hell", "helllo", "ahello"].iter() {
        assert!(!matcher.matches(m));
    }
}

#[test]
fn test_consider() {
    let mut m = compile(consider(vec![sundae("0"), sundae("1")], 0, 3).conj(eps().neg()));
    for s in ["0", "11", "110", "1001", "1100"].iter() {
        assert!(m.matches(s));
    }
    for s in ["1", "101", "1032302", "34929", "hello", "1101"].iter() {
        assert!(!m.matches(s));
    }
}

#[test]
fn test_neg_nul() {
    let mut m = compile(nul().neg());
    for s in ["asfs", "", "sdjfksdjfk", "3249289349"].iter() {
        assert!(m.matches(s));
    }
}

#[test]
fn interval_intersects_iff_common_point() {
    let a = CharRange::new(10, 20);
    let b = CharRange::new(19, 30);
    let c = CharRange::new(20, 30);
    assert!(a.intersects(&b));
    assert!(b.intersects(&a));
    assert!(!a.intersects(&c));
    let empty = CharRange::new(15, 15);
    assert!(!a.intersects(&empty));
    assert!(a.contains(&('\u{13}' as char)));
    assert!(!c.contains(&('\u{13}' as char)));
}

#[test]
fn charmap_insert_dominates() {
    let mut m: Charmap<u32> = Charmap::new();
    m.insert(CharRange::new(0, 10), 1);
    m.insert(CharRange::new(20, 30), 2);
    // the new key truncates both neighbours and wins inside its span
    m.insert(CharRange::new(5, 25), 3);
    assert_eq!(m.get(&'\u{4}'), Some(&1));
    assert_eq!(m.get(&'\u{5}'), Some(&3));
    assert_eq!(m.get(&'\u{18}'), Some(&3));
    assert_eq!(m.get(&'\u{19}'), Some(&2));
    assert_eq!(m.get(&'\u{1D}'), Some(&2));
    assert_eq!(m.get(&'\u{1E}'), None);
    // an interval wholly inside the key is gone, both remainders survive
    let mut m2: Charmap<u32> = Charmap::new();
    m2.insert(CharRange::new(0, 100), 7);
    m2.insert(CharRange::new(40, 60), 8);
    assert_eq!(m2.get(&'\u{27}'), Some(&7));
    assert_eq!(m2.get(&'\u{28}'), Some(&8));
    assert_eq!(m2.get(&'\u{3B}'), Some(&8));
    assert_eq!(m2.get(&'\u{3C}'), Some(&7));
    assert_eq!(m2.get(&'\u{63}'), Some(&7));
}

#[test]
fn charmap_try_insert_refuses_overlap() {
    let mut m: Charmap<u32> = Charmap::new();
    assert!(m.try_insert(CharRange::new(0, 10), 1));
    assert!(!m.try_insert(CharRange::new(5, 15), 2));
    assert!(m.try_insert(CharRange::new(10, 15), 3));
    assert_eq!(m.get(&'\u{7}'), Some(&1));
    assert_eq!(m.get(&'\u{C}'), Some(&3));
}

#[test]
fn charmap_point_queries() {
    let mut m: Charmap<u32> = Charmap::new();
    m.insert(CharRange::new(10, 20), 1);
    m.insert(CharRange::new(30, 40), 2);
    match m.get_in_or_out(&'\u{f}') {
        InOrOut::In((k, v)) => {
            assert_eq!(k.start(), 10);
            assert_eq!(k.end(), 20);
            assert_eq!(*v, 1);
        },
        InOrOut::Out(_) => panic!("expected a covered point"),
    }
    match m.get_in_or_out(&'\u{19}') {
        InOrOut::In(_) => panic!("expected a gap"),
        InOrOut::Out(g) => {
            assert_eq!(g.start(), 20);
            assert_eq!(g.end(), 30);
        },
    }
    assert!(m.contains_key(&'\u{a}'));
    assert!(!m.contains_key(&'\u{14}'));
    assert_eq!(m.last_key(), Some(CharRange::new(30, 40)));
}

#[test]
fn charmap_split_off_at_point() {
    let mut m: Charmap<u32> = Charmap::new();
    m.insert(CharRange::new(0, 10), 1);
    m.insert(CharRange::new(15, 25), 2);
    m.insert(CharRange::new(30, 40), 3);
    let (straddler, right) = m.split_off(&'\u{14}');
    assert_eq!(straddler, Some((CharRange::new(15, 25), 2)));
    assert_eq!(m.range_values().len(), 1);
    assert_eq!(right.range_values().len(), 1);
    assert_eq!(right.range_values()[0], (CharRange::new(30, 40), 3));
}

#[test]
fn charmap_merge_combines_overlaps() {
    let mut l: Charmap<u32> = Charmap::new();
    l.insert(CharRange::new(0, 10), 1);
    l.insert(CharRange::new(20, 30), 2);
    let mut r: Charmap<u32> = Charmap::new();
    r.insert(CharRange::new(5, 25), 10);
    l.merge(&mut r, |_rng: &CharRange, a: &u32, b: &u32| a + b);
    // left only
    assert_eq!(l.get(&'\u{3}'), Some(&1));
    // overlap of the first pair
    assert_eq!(l.get(&'\u{7}'), Some(&11));
    // right only
    assert_eq!(l.get(&'\u{f}'), Some(&10));
    // overlap of the second pair
    assert_eq!(l.get(&'\u{16}'), Some(&12));
    // left tail
    assert_eq!(l.get(&'\u{1b}'), Some(&2));
    assert_eq!(l.get(&'\u{1E}'), None);
    assert_eq!(r.range_values().len(), 0);
}

#[test]
fn charset_algebra_pointwise() {
    let mut a = Charset::new();
    a.insert(CharRange::new('a' as u32, 'f' as u32));
    let mut b = Charset::new();
    b.insert(CharRange::new('d' as u32, 'k' as u32));
    let both = a.intersection(&b);
    let either = a.union(&b);
    for c in "abcdefghijklm".chars() {
        assert_eq!(both.contains(&c), a.contains(&c) && b.contains(&c));
        assert_eq!(either.contains(&c), a.contains(&c) || b.contains(&c));
    }
    let mut inv = a.clone();
    inv.invert();
    for c in "\0abcdefz".chars() {
        assert_eq!(inv.contains(&c), !a.contains(&c));
    }
    assert!(inv.contains(&char::MAX));
}

#[test]
fn charset_holes_and_len() {
    let mut a = Charset::new();
    a.insert(CharRange::new(10, 20));
    a.insert(CharRange::new(30, 40));
    assert_eq!(a.len(), 20);
    let hs = a.holes();
    assert_eq!(hs.len(), 3);
    assert_eq!((hs[0].start(), hs[0].end()), (0, 10));
    assert_eq!((hs[1].start(), hs[1].end()), (20, 30));
    assert_eq!(hs[2].start(), 40);
    let rs = a.ranges();
    assert_eq!(rs.len(), 2);
    assert_eq!((rs[0].start(), rs[0].end()), (10, 20));
    assert_eq!(a.get(&'\u{a}'), Some(CharRange::new(10, 20)));
    assert_eq!(a.get(&'\u{14}'), None);
}

#[test]
fn toppings_matches_exact_characters() {
    let mut m = compile(toppings("xyz").star());
    assert!(m.matches("xyzzy"));
    assert!(m.matches(""));
    assert!(!m.matches("xyw"));
}

#[test]
fn optional_and_plus() {
    let mut m = compile(sundae("ab").fickle());
    assert!(m.matches(""));
    assert!(m.matches("ab"));
    assert!(!m.matches("abab"));

    let mut p = compile(cheese('0', '9').sun());
    assert!(p.matches("1"));
    assert!(p.matches("0123"));
    assert!(!p.matches(""));
}

#[test]
fn fan_repeats_exactly() {
    let mut m = compile(cheese('a', 'a').fan(3));
    assert!(m.matches("aaa"));
    assert!(!m.matches("aa"));
    assert!(!m.matches("aaaa"));
    let mut z = compile(sundae("x").fan(0));
    assert!(z.matches(""));
    assert!(!z.matches("x"));
    let mut one = compile(sundae("x").fan(1));
    assert!(one.matches("x"));
    assert!(!one.matches(""));
}

#[test]
fn moon_counts_cyclically() {
    // phase 1, modulus 3: accepted counts are 2, 5, 8, ...
    let mut m = compile(cheese('a', 'a').moon_phase(1, 3));
    assert!(!m.matches(""));
    assert!(!m.matches("a"));
    assert!(m.matches("aa"));
    assert!(!m.matches("aaa"));
    assert!(m.matches("aaaaa"));
    // a phase equal to the modulus is accepted immediately
    let mut at = compile(cheese('a', 'a').moon_phase(3, 3));
    assert!(at.matches(""));
    // a phase of zero is not immediately accepted
    let mut zero = compile(cheese('a', 'a').moon_phase(0, 3));
    assert!(!zero.matches(""));
    assert!(zero.matches("aaa"));
}

#[test]
fn conjunction_and_literals() {
    let mut m = compile(cheese('a', 'z').star().conj(sundae("dog").neg()));
    assert!(m.matches("cat"));
    assert!(!m.matches("dog"));
    assert!(m.matches("dogs"));
}

#[test]
fn chars_operands_combine_as_sets() {
    let both = cheese('a', 'm').conj(cheese('g', 'z'));
    let mut m = compile(both);
    assert!(m.matches("g"));
    assert!(m.matches("m"));
    assert!(!m.matches("a"));
    assert!(!m.matches("z"));
    let either = cheese('a', 'c').disj(cheese('x', 'z'));
    let mut u = compile(either);
    assert!(u.matches("b"));
    assert!(u.matches("y"));
    assert!(!u.matches("k"));
}

#[test]
fn matching_is_repeatable() {
    let expr = consider(vec![sundae("0"), sundae("1")], 0, 3).conj(eps().neg());
    let expr2 = consider(vec![sundae("0"), sundae("1")], 0, 3).conj(eps().neg());
    let mut m1 = compile(expr);
    let mut m2 = compile(expr2);
    for s in ["110", "101", "", "0", "1"].iter() {
        let a = m1.matches(s);
        let b = m2.matches(s);
        let again = m1.matches(s);
        assert_eq!(a, b);
        assert_eq!(a, again);
    }
}

#[test]
fn nullable_flags() {
    assert!(eps().nullable());
    assert!(!nul().nullable());
    assert!(nul().neg().nullable());
    assert!(cheese('a', 'b').star().nullable());
    assert!(!sundae("x").nullable());
    assert!(sundae("").nullable());
}

#[test]
fn derive_splits_the_domain() {
    let re = cheese('b', 'd');
    let (inside, _) = re.derive(&'c');
    assert_eq!(inside.start(), 'b' as u32);
    assert_eq!(inside.end(), 'e' as u32);
    let (below, _) = re.derive(&'a');
    assert_eq!(below.start(), 0);
    assert_eq!(below.end(), 'b' as u32);
    let (above, _) = re.derive(&'x');
    assert_eq!(above.start(), 'e' as u32);
    assert_eq!(above.end(), 0x110000);
}

#[test]
fn interval_edges() {
    let all = CharRange::all();
    assert!(!all.is_empty());
    assert!(all.contains(&char::MAX));
    let empty = CharRange::empty();
    assert!(empty.is_empty());
    let at = CharRange::at('q');
    assert!(at.is_empty());
    assert_eq!(CharRange::start_from('q').start(), 'q' as u32);
    assert_eq!(CharRange::end_at('q').end(), 'q' as u32);
    let lo = CharRange::new(0, 5);
    let hi = CharRange::new(5, 9);
    assert!(!lo.intersects(&hi));
    let got = lo.inter(&CharRange::new(3, 8));
    assert_eq!((got.start(), got.end()), (3, 5));
}
