use bitstring::BitString;
use bitstring_trees::bits::BitKey;
use bitstring_trees::iter::{iter_between, iter_inclusive};
use bitstring_trees::set::PrefixSet;
use cidr::{AnyIpCidr, Ipv4Cidr, Ipv6Cidr};

fn key_of<K: BitString>(k: &K) -> BitKey {
    BitKey::from_bits((0..k.len()).map(|i| k.get(i)).collect())
}

fn any(s: &str) -> BitKey {
    key_of(&s.parse::<AnyIpCidr>().unwrap())
}

fn v4(s: &str) -> BitKey {
    key_of(&s.parse::<Ipv4Cidr>().unwrap())
}

fn v6(s: &str) -> BitKey {
    key_of(&s.parse::<Ipv6Cidr>().unwrap())
}

#[test]
fn testv4_1() {
    assert_eq!(
        iter_inclusive(v4("192.168.0.6/32"), v4("192.168.0.6/32")).collect_vec(),
        vec![v4("192.168.0.6/32")]
    );
}

#[test]
fn testv6_1() {
    assert_eq!(
        iter_inclusive(v6("::f0:4/128"), v6("::f0:10/128")).collect_vec(),
        vec![v6("::f0:4/126"), v6("::f0:8/125"), v6("::f0:10/128")]
    );
}

#[test]
fn test_cidr_empty() {
    let set = PrefixSet::new();
    assert_eq!(set.iter_full(), vec![(key_of(&AnyIpCidr::Any), false)]);
}

#[test]
fn test_cidr() {
    let mut set = PrefixSet::new();
    set.insert(any("192.168.10.0/24"));
    set.insert(any("224.0.0.0/4"));
    set.insert(any("8000::/1"));
    assert_eq!(
        set.iter_full(),
        vec![
            (any("0.0.0.0/1"), false),
            (any("128.0.0.0/2"), false),
            (any("192.0.0.0/9"), false),
            (any("192.128.0.0/11"), false),
            (any("192.160.0.0/13"), false),
            (any("192.168.0.0/21"), false),
            (any("192.168.8.0/23"), false),
            (any("192.168.10.0/24"), true),
            (any("192.168.11.0/24"), false),
            (any("192.168.12.0/22"), false),
            (any("192.168.16.0/20"), false),
            (any("192.168.32.0/19"), false),
            (any("192.168.64.0/18"), false),
            (any("192.168.128.0/17"), false),
            (any("192.169.0.0/16"), false),
            (any("192.170.0.0/15"), false),
            (any("192.172.0.0/14"), false),
            (any("192.176.0.0/12"), false),
            (any("192.192.0.0/10"), false),
            (any("193.0.0.0/8"), false),
            (any("194.0.0.0/7"), false),
            (any("196.0.0.0/6"), false),
            (any("200.0.0.0/5"), false),
            (any("208.0.0.0/4"), false),
            (any("224.0.0.0/4"), true),
            (any("240.0.0.0/4"), false),
            (any("::/1"), false),
            (any("8000::/1"), true),
        ]
    );
}

#[test]
fn test_fill_uncovered() {
    assert_eq!(
        iter_between(None, Some(any("8000::/1"))).collect_vec(),
        vec![any("0.0.0.0/0"), any("::/1")],
    );

    assert_eq!(
        iter_between(Some(any("240.0.0.0/4")), Some(any("8000::/1"))).collect_vec(),
        vec![any("::/1")],
    );

    assert_eq!(
        iter_between(Some(any("240.0.0.0/4")), None).collect_vec(),
        vec![any("::/0")],
    );

    assert_eq!(
        iter_between(None, Some(v4("240.0.0.0/4"))).collect_vec(),
        vec![v4("0.0.0.0/1"), v4("128.0.0.0/2"), v4("192.0.0.0/3"), v4("224.0.0.0/4")],
    );
}

#[test]
fn test_fill_uncovered2() {
    assert_eq!(
        iter_between(Some(any("192.168.10.0/24")), Some(any("240.0.0.0/4"))).collect_vec(),
        vec![
            any("192.168.11.0/24"),
            any("192.168.12.0/22"),
            any("192.168.16.0/20"),
            any("192.168.32.0/19"),
            any("192.168.64.0/18"),
            any("192.168.128.0/17"),
            any("192.169.0.0/16"),
            any("192.170.0.0/15"),
            any("192.172.0.0/14"),
            any("192.176.0.0/12"),
            any("192.192.0.0/10"),
            any("193.0.0.0/8"),
            any("194.0.0.0/7"),
            any("196.0.0.0/6"),
            any("200.0.0.0/5"),
            any("208.0.0.0/4"),
            any("224.0.0.0/4"),
        ],
    );
}

#[test]
fn goto() {
    let mut set = PrefixSet::new();
    set.insert(any("192.168.10.0/24"));
    set.insert(any("224.0.0.0/4"));
    set.insert(any("8000::/1"));

    assert!(set.contains(&any("192.168.10.0/24")));
    assert!(set.contains(&any("192.168.10.0/25")));
    assert!(set.contains(&any("192.168.10.128/25")));

    assert!(set.contains(&any("224.0.0.0/4")));
    assert!(set.contains(&any("224.0.0.0/5")));
    assert!(set.contains(&any("232.0.0.0/5")));

    assert!(set.contains(&any("8000::/1")));
    assert!(set.contains(&any("8000::/2")));
    assert!(set.contains(&any("c000::/2")));

    assert!(!set.contains(&any("40a8:0a00::/24")));
    assert!(!set.contains(&any("0.168.10.0/24")));
    assert!(!set.contains(&any("128.168.10.0/24")));

    set.remove(any("8000::/1"));
    assert!(!set.contains(&any("8000::/1")));

    assert!(!set.contains(&any("80a8:0a00::/24")));
    assert!(!set.contains(&any("0.168.10.0/24")));
    assert!(!set.contains(&any("128.168.10.0/24")));
}

#[test]
fn remove_collapses_cidr_tree() {
    let mut set = PrefixSet::new();
    set.insert(any("192.168.10.0/24"));
    set.insert(any("224.0.0.0/4"));
    set.insert(any("8000::/1"));
    assert_eq!(set.tree().iter_pre_order().len(), 5);
    set.remove(any("8000::/1"));
    assert!(!set.contains(&any("8000::/2")));
    let nodes = set.tree().iter_pre_order();
    assert_eq!(nodes.len(), 3);
    assert_eq!(nodes[1], any("192.168.10.0/24"));
    assert_eq!(nodes[2], any("224.0.0.0/4"));
}
