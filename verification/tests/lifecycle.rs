use cardwatch::coord::aggregate_outcome;
use cardwatch::coord::CoordEvent;
use cardwatch::coord::Coordinator;
use cardwatch::extract::pagination_limit_reached;

#[test]
fn any_trigger_broadcasts_cancellation_to_both_tasks() {
    let mut c = Coordinator::new();
    assert!(!c.is_cancelled());
    c.on_event(CoordEvent::ShutdownSignal);
    assert!(c.is_cancelled());
    // Both tasks observe the broadcast and finish; the state stays
    // cancelled throughout.
    c.on_event(CoordEvent::ScraperFinished);
    assert!(c.is_cancelled());
    assert!(c.scraper_done);
    c.on_event(CoordEvent::ServerFinished);
    assert!(c.is_cancelled());
    assert!(c.server_done);
}

#[test]
fn a_task_finishing_cancels_the_other() {
    let mut c = Coordinator::new();
    c.on_event(CoordEvent::ScraperFinished);
    assert!(c.is_cancelled());
    assert!(c.scraper_done);
    assert!(!c.server_done);
}

#[test]
fn the_exit_reflects_task_errors() {
    assert_eq!(aggregate_outcome(Ok(()), Ok(())), Ok(()));
    assert_eq!(
        aggregate_outcome(Err("scrape failed".to_owned()), Ok(())),
        Err("scrape failed".to_owned())
    );
    assert_eq!(
        aggregate_outcome(Ok(()), Err("bind failed".to_owned())),
        Err("bind failed".to_owned())
    );
    assert_eq!(
        aggregate_outcome(
            Err("scrape failed".to_owned()),
            Err("bind failed".to_owned())
        ),
        Err("scrape failed".to_owned())
    );
}

#[test]
fn the_pagination_ceiling_stops_a_runaway_walk() {
    assert!(!pagination_limit_reached(0));
    assert!(!pagination_limit_reached(100));
    assert!(pagination_limit_reached(101));
}
