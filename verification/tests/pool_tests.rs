use parallel_sudoku::beggar_pool::{BeggarPool, DonationResult};
use parallel_sudoku::stealer_pool::StealerPool;

#[test]
fn donating_with_nobody_ready_never_succeeds() {
    let pool: BeggarPool<u32> = BeggarPool::new(4);
    assert!(!pool.is_ready());
    for _ in 0..10 {
        assert_eq!(pool.donate_work(&7), DonationResult::NotDonated);
    }
    assert!(!pool.is_ready());
}

#[test]
fn registration_hands_out_sequential_identifiers() {
    let pool: BeggarPool<u32> = BeggarPool::new(3);
    assert_eq!(pool.register(), 0);
    assert_eq!(pool.register(), 1);
    assert_eq!(pool.register(), 2);
}

#[test]
fn a_beggar_is_served_once_a_donor_arrives() {
    let pool: BeggarPool<u32> = BeggarPool::new(2);
    let id = pool.register();
    crossbeam::thread::scope(|scope| {
        let beggar = scope.spawn(|_| pool.beg_work(id));
        // Wait until the beggar has announced itself, then donate.
        while !pool.is_ready() {}
        let mut outcome = pool.donate_work(&41);
        while outcome != DonationResult::Donated {
            outcome = pool.donate_work(&41);
        }
        let received = beggar.join().unwrap();
        assert_eq!(received, Some(41));
    })
    .unwrap();
}

#[test]
fn two_beggars_each_get_one_donation() {
    let pool: BeggarPool<u32> = BeggarPool::new(2);
    let a = pool.register();
    let b = pool.register();
    assert_eq!((a, b), (0, 1));
    crossbeam::thread::scope(|scope| {
        let w1 = scope.spawn(|_| pool.beg_work(a));
        let w2 = scope.spawn(|_| pool.beg_work(b));
        let mut donations = 0;
        while donations < 2 {
            if pool.donate_work(&9) == DonationResult::Donated {
                donations += 1;
            }
        }
        assert_eq!(w1.join().unwrap(), Some(9));
        assert_eq!(w2.join().unwrap(), Some(9));
    })
    .unwrap();
}

#[test]
fn stealer_pool_reports_ready_only_when_full() {
    let pool: StealerPool<u32> = StealerPool::new(2);
    assert!(!pool.is_ready());
    assert_eq!(pool.register(), 0);
    assert!(!pool.is_ready());
    assert_eq!(pool.register(), 1);
    assert!(pool.is_ready());
}

#[test]
fn stealing_from_empty_queues_finds_nothing() {
    let pool: StealerPool<u32> = StealerPool::new(3);
    assert_eq!(pool.steal_work(0), None);
    assert_eq!(pool.steal_work(2), None);
}
