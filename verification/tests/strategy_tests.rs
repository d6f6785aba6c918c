use std::sync::atomic::AtomicI32;
use std::sync::atomic::Ordering;
use std::sync::Arc;

use concurrent_ledger::create_ledger;
use concurrent_ledger::BasicBank;
use concurrent_ledger::DepositOutcome;
use concurrent_ledger::DepositRequest;
use concurrent_ledger::LedgerActor;

#[test]
fn exclusive_lock_concurrent_deposits_reach_exact_total() {
    // Three concurrent callers, each depositing 50 into the seeded balance of
    // 100, serialized by a blocking lock: every caller succeeds and the final
    // balance is exactly 250 whatever order the lock grants.
    let rt = tokio::runtime::Runtime::new().unwrap();
    rt.block_on(async {
        let bank = Arc::new(std::sync::Mutex::new(BasicBank::new()));
        let mut handles = Vec::new();
        for _ in 0..3 {
            let bank = Arc::clone(&bank);
            handles.push(tokio::spawn(async move {
                let mut guard = bank.lock().unwrap();
                guard.deposit("Alice", 50)
            }));
        }
        let mut balances = Vec::new();
        for handle in handles {
            balances.push(handle.await.unwrap().unwrap());
        }
        balances.sort();
        assert_eq!(balances, vec![150, 200, 250]);
        assert_eq!(bank.lock().unwrap().balance_of("Alice"), Some(250));
    });
}

#[test]
fn suspending_lock_keeps_critical_section_exclusive() {
    // One caller suspends while holding the lock; a second caller's request
    // must not start until the first releases. A shared occupancy counter
    // never exceeds one, and no update is lost.
    let rt = tokio::runtime::Runtime::new().unwrap();
    rt.block_on(async {
        let ledger = Arc::new(tokio::sync::Mutex::new(create_ledger(vec![(
            "Alice".to_string(),
            100,
        )])));
        let occupancy = Arc::new(AtomicI32::new(0));
        let peak = Arc::new(AtomicI32::new(0));
        let mut handles = Vec::new();
        for _ in 0..3 {
            let ledger = Arc::clone(&ledger);
            let occupancy = Arc::clone(&occupancy);
            let peak = Arc::clone(&peak);
            handles.push(tokio::spawn(async move {
                let mut guard = ledger.lock().await;
                let inside = occupancy.fetch_add(1, Ordering::SeqCst) + 1;
                peak.fetch_max(inside, Ordering::SeqCst);
                // Simulated slow downstream work, suspended while the lock is
                // still held.
                tokio::time::sleep(tokio::time::Duration::from_millis(50)).await;
                let outcome = guard.deposit("Alice", 50);
                occupancy.fetch_sub(1, Ordering::SeqCst);
                outcome
            }));
        }
        let mut successes: i32 = 0;
        for handle in handles {
            match handle.await.unwrap() {
                DepositOutcome::Balance(_) => successes += 1,
                DepositOutcome::NotFound => panic!("unexpected not-found"),
            }
        }
        assert_eq!(successes, 3);
        assert_eq!(peak.load(Ordering::SeqCst), 1);
        assert_eq!(ledger.lock().await.balance_of("Alice"), Some(250));
    });
}

#[test]
fn actor_replies_in_submission_order_and_stops_once_drained() {
    // Requests with distinct amounts go into the inbox in a known order; the
    // actor drains them strictly in arrival order, so the balances it reports
    // reveal that order exactly. Dropping every sender closes the inbox, after
    // which the actor takes its terminal transition and surrenders the ledger.
    let rt = tokio::runtime::Runtime::new().unwrap();
    rt.block_on(async {
        let (tx, mut rx) = tokio::sync::mpsc::channel::<(
            DepositRequest,
            tokio::sync::oneshot::Sender<DepositOutcome>,
        )>(32);

        let manager = tokio::spawn(async move {
            let mut actor = LedgerActor::start(create_ledger(vec![("Alice".to_string(), 100)]));
            while let Some((request, respond_to)) = rx.recv().await {
                let outcome = actor.handle_deposit(&request.account, request.amount);
                // A vanished caller must not stop the actor.
                let _ = respond_to.send(outcome);
            }
            actor.handle_inbox_closed();
            assert!(!actor.is_running());
            actor.into_ledger()
        });

        let mut replies = Vec::new();
        for amount in [10, 20, 30] {
            let (resp_tx, resp_rx) = tokio::sync::oneshot::channel();
            tx.send((
                DepositRequest { account: "Alice".to_string(), amount },
                resp_tx,
            ))
            .await
            .unwrap();
            replies.push(resp_rx);
        }
        drop(tx);

        let mut observed = Vec::new();
        for reply in replies {
            observed.push(reply.await.unwrap());
        }
        assert_eq!(
            observed,
            vec![
                DepositOutcome::Balance(110),
                DepositOutcome::Balance(130),
                DepositOutcome::Balance(160),
            ]
        );

        let ledger = manager.await.unwrap();
        assert_eq!(ledger.balance_of("Alice"), Some(160));
    });
}

#[test]
fn actor_swallows_reply_to_vanished_caller() {
    // The caller of the second request abandons its reply channel; the actor
    // must still process later requests and shut down cleanly.
    let rt = tokio::runtime::Runtime::new().unwrap();
    rt.block_on(async {
        let (tx, mut rx) = tokio::sync::mpsc::channel::<(
            DepositRequest,
            tokio::sync::oneshot::Sender<DepositOutcome>,
        )>(32);

        let manager = tokio::spawn(async move {
            let mut actor = LedgerActor::start(create_ledger(vec![("Alice".to_string(), 100)]));
            while let Some((request, respond_to)) = rx.recv().await {
                let outcome = actor.handle_deposit(&request.account, request.amount);
                let _ = respond_to.send(outcome);
            }
            actor.handle_inbox_closed();
            actor.into_ledger()
        });

        let (first_tx, first_rx) = tokio::sync::oneshot::channel();
        tx.send((DepositRequest { account: "Alice".to_string(), amount: 1 }, first_tx))
            .await
            .unwrap();
        let (second_tx, second_rx) = tokio::sync::oneshot::channel();
        drop(second_rx);
        tx.send((DepositRequest { account: "Alice".to_string(), amount: 2 }, second_tx))
            .await
            .unwrap();
        let (third_tx, third_rx) = tokio::sync::oneshot::channel();
        tx.send((DepositRequest { account: "Alice".to_string(), amount: 4 }, third_tx))
            .await
            .unwrap();
        drop(tx);

        assert_eq!(first_rx.await.unwrap(), DepositOutcome::Balance(101));
        assert_eq!(third_rx.await.unwrap(), DepositOutcome::Balance(107));
        let ledger = manager.await.unwrap();
        assert_eq!(ledger.balance_of("Alice"), Some(107));
    });
}
