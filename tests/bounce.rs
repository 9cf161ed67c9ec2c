use ray_trace::bounce::{shade_of_hits, Path, Shade, Step};

#[test]
fn spent_budget_is_black() {
    assert_eq!(shade_of_hits(0, &vec![]), Shade::Black);
    assert_eq!(shade_of_hits(0, &vec![false]), Shade::Black);
    assert_eq!(shade_of_hits(0, &vec![true, false]), Shade::Black);
    assert_eq!(Path::new(0).next_step(), Step::Finish(Shade::Black));
}

#[test]
fn first_miss_sees_plain_sky() {
    assert_eq!(shade_of_hits(50, &vec![false]), Shade::Sky { bounces: 0 });
    assert_eq!(shade_of_hits(50, &vec![]), Shade::Sky { bounces: 0 });
    assert_eq!(shade_of_hits(1, &vec![false, true]), Shade::Sky { bounces: 0 });
}

#[test]
fn each_hit_adds_a_bounce() {
    assert_eq!(
        shade_of_hits(50, &vec![true, true, false, true]),
        Shade::Sky { bounces: 2 }
    );
    assert_eq!(shade_of_hits(3, &vec![true, true]), Shade::Sky { bounces: 2 });
}

#[test]
fn hits_that_use_up_the_budget_give_black() {
    assert_eq!(shade_of_hits(3, &vec![true, true, true]), Shade::Black);
    assert_eq!(shade_of_hits(3, &vec![true, true, true, false]), Shade::Black);
    assert_eq!(shade_of_hits(1, &vec![true]), Shade::Black);
}

#[test]
fn largest_budget() {
    assert_eq!(shade_of_hits(u32::MAX, &vec![true, false]), Shade::Sky { bounces: 1 });
    assert_eq!(shade_of_hits(u32::MAX, &vec![]), Shade::Sky { bounces: 0 });
}

#[test]
fn path_driven_query_by_query() {
    let mut path = Path::new(2);
    assert_eq!(path.next_step(), Step::Query);
    path.record(true);
    assert_eq!(path.next_step(), Step::Query);
    path.record(false);
    assert_eq!(path.next_step(), Step::Finish(Shade::Sky { bounces: 1 }));

    let mut spent = Path::new(2);
    spent.record(true);
    spent.record(true);
    assert_eq!(spent.next_step(), Step::Finish(Shade::Black));
}
