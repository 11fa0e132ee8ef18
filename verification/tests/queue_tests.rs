use rtbit::queue::{QueueLimitsConfig, QueueManager, QueueState};

fn limits(d: u32, u: u32, t: u32) -> QueueLimitsConfig {
    QueueLimitsConfig { max_active_downloads: d, max_active_uploads: u, max_active_total: t }
}

#[test]
fn unlimited_queue_activates_everything() {
    let mut q = QueueManager::new(limits(0, 0, 0));
    for id in 0..5 {
        assert_eq!(q.register_torrent(id, true, false), QueueState::Active);
    }
    assert_eq!(q.get_queue_state(3), Some((QueueState::Active, None)));
    assert_eq!(q.get_queue_state(99), None);
}

#[test]
fn download_limit_queues_and_promotes_in_order() {
    let mut q = QueueManager::new(limits(2, 0, 0));
    assert_eq!(q.register_torrent(1, true, false), QueueState::Active);
    assert_eq!(q.register_torrent(2, true, false), QueueState::Active);
    assert_eq!(q.register_torrent(3, true, false), QueueState::Queued);
    assert_eq!(q.register_torrent(4, true, false), QueueState::Queued);
    assert_eq!(q.get_queue_state(3), Some((QueueState::Queued, Some(1))));
    assert_eq!(q.get_queue_state(4), Some((QueueState::Queued, Some(2))));
    assert_eq!(q.remove_torrent(1), vec![3]);
    assert_eq!(q.get_queue_state(3), Some((QueueState::Active, None)));
    assert_eq!(q.pause_torrent(2), vec![4]);
    assert_eq!(q.get_queue_state(2), Some((QueueState::ManuallyPaused, None)));
}

#[test]
fn manually_paused_torrents_take_no_slot() {
    let mut q = QueueManager::new(limits(1, 0, 0));
    assert_eq!(q.register_torrent(1, true, true), QueueState::ManuallyPaused);
    assert_eq!(q.register_torrent(2, true, false), QueueState::Active);
    assert_eq!(q.unpause_torrent(1, true), QueueState::Queued);
    assert_eq!(q.torrent_completed(2), Vec::<usize>::new());
    // an unknown torrent is registered; seeding has no limit here
    assert_eq!(q.unpause_torrent(7, false), QueueState::Active);
}

#[test]
fn total_limit_applies_to_seeding_too() {
    let mut q = QueueManager::new(limits(0, 5, 1));
    assert_eq!(q.register_torrent(1, false, false), QueueState::Active);
    assert_eq!(q.register_torrent(2, false, false), QueueState::Queued);
    q.set_max_active_total(0);
    assert_eq!(q.get_max_active_total(), 0);
    assert_eq!(q.torrent_completed(1), vec![2]);
}

#[test]
fn reordering_the_queue() {
    let mut q = QueueManager::new(limits(1, 0, 0));
    q.register_torrent(1, true, false);
    for id in 2..6 {
        assert_eq!(q.register_torrent(id, true, false), QueueState::Queued);
    }
    // queue: 2, 3, 4, 5
    // the head sits at position 0: 5 takes it and the others move back
    q.move_to_top(5);
    assert_eq!(q.get_queue_state(5), Some((QueueState::Queued, Some(1))));
    assert_eq!(q.get_queue_state(2), Some((QueueState::Queued, Some(2))));
    assert_eq!(q.get_queue_state(4), Some((QueueState::Queued, Some(4))));
    q.move_to_bottom(2);
    assert_eq!(q.get_queue_state(2), Some((QueueState::Queued, Some(4))));
    q.move_up(4);
    assert_eq!(q.get_queue_state(4), Some((QueueState::Queued, Some(2))));
    q.move_down(4);
    assert_eq!(q.get_queue_state(4), Some((QueueState::Queued, Some(3))));
    // moving an active torrent changes nothing
    q.move_to_top(1);
    assert_eq!(q.get_queue_state(1), Some((QueueState::Active, None)));
}

#[test]
fn limits_are_read_back() {
    let mut q = QueueManager::new(limits(3, 4, 5));
    assert_eq!(q.get_max_active_downloads(), 3);
    assert_eq!(q.get_max_active_uploads(), 4);
    assert_eq!(q.get_max_active_total(), 5);
    q.set_max_active_downloads(7);
    q.set_max_active_uploads(8);
    assert_eq!(q.get_max_active_downloads(), 7);
    assert_eq!(q.get_max_active_uploads(), 8);
}

#[test]
fn move_to_top_passes_the_head() {
    let mut q = QueueManager::new(limits(0, 0, 1));
    assert_eq!(q.register_torrent(1, true, false), QueueState::Active);
    assert_eq!(q.register_torrent(2, true, false), QueueState::Queued);
    assert_eq!(q.register_torrent(3, true, false), QueueState::Queued);
    q.move_to_top(3);
    assert_eq!(q.get_queue_state(3), Some((QueueState::Queued, Some(1))));
    assert_eq!(q.get_queue_state(2), Some((QueueState::Queued, Some(2))));
    // the next free slot goes to the new head
    assert_eq!(q.remove_torrent(1), vec![3]);
}

#[test]
fn move_to_top_below_a_positive_head() {
    let mut q = QueueManager::new(limits(0, 0, 1));
    q.register_torrent(1, true, false);
    for id in 2..5 {
        q.register_torrent(id, true, false);
    }
    // queue: 2 (0), 3 (1), 4 (2); moving 2 to the bottom leaves 3 at the head with position 1
    q.move_to_bottom(2);
    q.move_to_top(4);
    assert_eq!(q.get_queue_state(4), Some((QueueState::Queued, Some(1))));
    assert_eq!(q.get_queue_state(3), Some((QueueState::Queued, Some(2))));
    assert_eq!(q.get_queue_state(2), Some((QueueState::Queued, Some(3))));
}
