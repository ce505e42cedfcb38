use binary_agreement::bin_values::BinValues;
use binary_agreement::message::{AgreementContent, AgreementMessage, Target};
use binary_agreement::netinfo::NetworkInfo;

const ALL: [BinValues; 4] =
    [BinValues::Neither, BinValues::False, BinValues::True, BinValues::Both];

fn members(v: BinValues) -> Vec<bool> {
    [false, true].into_iter().filter(|b| v.contains(*b)).collect()
}

#[test]
fn bin_values_membership() {
    assert_eq!(members(BinValues::new()), vec![]);
    assert_eq!(members(BinValues::Neither), vec![]);
    assert_eq!(members(BinValues::False), vec![false]);
    assert_eq!(members(BinValues::True), vec![true]);
    assert_eq!(members(BinValues::Both), vec![false, true]);
    assert_eq!(BinValues::from_bool(false), BinValues::False);
    assert_eq!(BinValues::from_bool(true), BinValues::True);
}

#[test]
fn bin_values_insert_tells_whether_the_set_changed() {
    let mut v = BinValues::new();
    assert!(v.insert(true));
    assert_eq!(v, BinValues::True);
    assert!(!v.insert(true));
    assert_eq!(v, BinValues::True);
    assert!(v.insert(false));
    assert_eq!(v, BinValues::Both);
    assert!(!v.insert(false));
    assert!(!v.insert(true));
    assert_eq!(v, BinValues::Both);
    v.clear();
    assert_eq!(v, BinValues::Neither);
    assert!(v.insert(false));
    assert_eq!(v, BinValues::False);
}

#[test]
fn bin_values_subset_is_inclusion_of_members() {
    for a in ALL {
        for b in ALL {
            let expected = members(a).iter().all(|x| members(b).contains(x));
            assert_eq!(a.is_subset(b), expected, "{:?} within {:?}", a, b);
        }
    }
}

#[test]
fn bin_values_definite_is_the_member_of_a_singleton() {
    assert_eq!(BinValues::Neither.definite(), None);
    assert_eq!(BinValues::False.definite(), Some(false));
    assert_eq!(BinValues::True.definite(), Some(true));
    assert_eq!(BinValues::Both.definite(), None);
}

#[test]
fn bin_values_union_joins_members() {
    for a in ALL {
        for b in ALL {
            let mut u = a;
            u.union(b);
            for x in [false, true] {
                assert_eq!(u.contains(x), a.contains(x) || b.contains(x));
            }
        }
    }
}

#[test]
fn bin_values_collect_is_the_union() {
    assert_eq!(BinValues::collect(&vec![]), BinValues::Neither);
    assert_eq!(BinValues::collect(&vec![BinValues::True]), BinValues::True);
    assert_eq!(
        BinValues::collect(&vec![BinValues::True, BinValues::Neither, BinValues::True]),
        BinValues::True
    );
    assert_eq!(
        BinValues::collect(&vec![BinValues::False, BinValues::True]),
        BinValues::Both
    );
    assert_eq!(
        BinValues::collect(&vec![BinValues::Neither, BinValues::False]),
        BinValues::False
    );
}

#[test]
fn union_of_subsets_is_a_subset() {
    for bound in ALL {
        let subsets: Vec<BinValues> = ALL.into_iter().filter(|v| v.is_subset(bound)).collect();
        assert!(BinValues::collect(&subsets).is_subset(bound));
        assert_eq!(BinValues::collect(&subsets), bound);
    }
}

#[test]
fn message_constructors() {
    assert_eq!(
        AgreementMessage::bval(3, true),
        AgreementMessage { epoch: 3, content: AgreementContent::BVal(true) }
    );
    assert_eq!(
        AgreementMessage::aux(4, false),
        AgreementMessage { epoch: 4, content: AgreementContent::Aux(false) }
    );
    assert_eq!(
        AgreementMessage::conf(5, BinValues::Both),
        AgreementMessage { epoch: 5, content: AgreementContent::Conf(BinValues::Both) }
    );
    let t = Target::All.message(AgreementMessage::bval(0, true));
    assert_eq!(t.target, Target::All);
    assert_eq!(t.message, AgreementMessage::bval(0, true));
    let t = Target::Node(2).message(AgreementMessage::aux(1, false));
    assert_eq!(t.target, Target::Node(2));
}

#[test]
fn messages_are_ordered_by_epoch_then_kind_then_payload() {
    let ordered = vec![
        AgreementMessage::bval(0, false),
        AgreementMessage::bval(0, true),
        AgreementMessage::aux(0, false),
        AgreementMessage::aux(0, true),
        AgreementMessage::conf(0, BinValues::Neither),
        AgreementMessage::conf(0, BinValues::False),
        AgreementMessage::conf(0, BinValues::True),
        AgreementMessage::conf(0, BinValues::Both),
        AgreementMessage::bval(1, false),
        AgreementMessage::conf(1, BinValues::Both),
        AgreementMessage::bval(2, false),
    ];
    for i in 0..ordered.len() {
        for j in 0..ordered.len() {
            assert_eq!(ordered[i] < ordered[j], i < j);
            assert_eq!(ordered[i] == ordered[j], i == j);
            assert_eq!(ordered[i].cmp(&ordered[j]), i.cmp(&j));
        }
    }
    let mut shuffled = ordered.clone();
    shuffled.reverse();
    shuffled.sort();
    assert_eq!(shuffled, ordered);
}

#[test]
fn network_info_needs_three_f_plus_one_nodes() {
    assert!(NetworkInfo::new(0, 0, 0).is_none());
    assert!(NetworkInfo::new(0, 3, 1).is_none());
    assert!(NetworkInfo::new(0, 6, 2).is_none());
    assert!(NetworkInfo::new(0, usize::MAX, usize::MAX).is_none());
    let n = NetworkInfo::new(5, 4, 1).expect("admissible network");
    assert_eq!(*n.our_uid(), 5);
    assert_eq!(n.num_nodes(), 4);
    assert_eq!(n.num_faulty(), 1);
    let n = NetworkInfo::new(0, 1, 0).expect("admissible network");
    assert_eq!(n.num_nodes(), 1);
    assert_eq!(n.num_faulty(), 0);
    assert!(NetworkInfo::new(0, 7, 2).is_some());
    assert!(NetworkInfo::new(0, 7, 0).is_some());
}
