use trine_kv::error::{Error, ErrorKind};
use trine_kv::io::completion::{
    blocking_outcome, BlockingAdapterIoDriver, InlineIoDriver, IoCompletion, IoDriverInfo, IoDriverKind, StorageReadBuffer,
};
use trine_kv::io::control::{
    reserve_platform_io_queue_slot, PlatformIoControl, PlatformIoSchedulerMetrics, PlatformIoSend,
    PlatformIoState, PLATFORM_IO_MAX_IN_FLIGHT, PLATFORM_IO_SCHEDULER_QUEUE_DEPTH,
};
use trine_kv::io::driver::PlatformIoDriver;
use trine_kv::io::matrix::{
    matrix, selected_matrix, PlatformIoBackendKind, PlatformIoBackendMatrix, PlatformIoOperation,
    PlatformIoTaskClass,
};
use trine_kv::io::path::{parent_directory, path_components, same_path};
use trine_kv::io::plan::{
    file_calls, lease_outcome, optional_read_len, requires_parent_dir_sync_after_rename,
    sync_for_log, sync_for_publish, FileCall, FileSync,
};
use trine_kv::io::resources::{
    normalize_platform_io_resources, platform_io_resources_conflict, PlatformIoAccess,
    PlatformIoResourceKey, PlatformIoResourceRequest, PlatformIoResourceTable,
};
use trine_kv::io::scheduler::{
    route, PlatformIoRoute, PlatformIoScheduler, PlatformIoStartFailure, PlatformIoWait,
};
use trine_kv::io::task::{PlatformIoAppendSession, PlatformIoPublishPlan, PlatformIoTask};
use trine_kv::options::DurabilityMode;

fn poll_ready_io<T>(mut completion: IoCompletion<T>) -> Result<T, Error> {
    match completion.poll(0) {
        Some(value) => value,
        None => Err(Error::unsupported_backend("pending inline I/O completion")),
    }
}

#[test]
fn inline_driver_completes_read_and_has_no_pending_steps() {
    let driver = InlineIoDriver;
    assert_eq!(driver.info().kind(), IoDriverKind::Inline);

    let completion = driver
        .submit_read_exact_at_owned(|| Ok(StorageReadBuffer::from_vec(4, b"read".to_vec())))
        .expect("inline read submits");
    assert!(completion.is_finished());
    let buffer = poll_ready_io(completion).expect("inline read completes");

    assert_eq!(buffer.offset(), 4);
    assert_eq!(&*buffer.into_bytes(), b"read");
    assert_eq!(driver.step().expect("inline step succeeds"), 0);
    assert_eq!(driver.drain().expect("inline drain succeeds"), 0);
}

#[test]
fn inline_driver_completes_append_and_sync() {
    let driver = InlineIoDriver;
    let append = driver
        .submit_append(|| Ok(()))
        .expect("inline append submits");
    poll_ready_io(append).expect("inline append completes");

    let sync = driver.submit_sync(|| Ok(())).expect("inline sync submits");
    poll_ready_io(sync).expect("inline sync completes");
}

#[test]
fn blocking_adapter_driver_runs_submitted_operation() {
    let driver = BlockingAdapterIoDriver;
    assert_eq!(driver.info().kind(), IoDriverKind::BlockingAdapter);

    let job = driver.submit_len(|| Ok(42));
    assert_eq!(
        poll_ready_io(job.run()).expect("blocking adapter completes operation"),
        42
    );
    assert_eq!(driver.step().expect("blocking adapter step succeeds"), 0);
    assert_eq!(driver.drain().expect("blocking adapter drain succeeds"), 0);
}

const ALL_PLATFORM_OPERATIONS: [PlatformIoOperation; 13] = [
    PlatformIoOperation::LengthLookup,
    PlatformIoOperation::OwnedRandomRead,
    PlatformIoOperation::OptionalWholeObjectRead,
    PlatformIoOperation::TempWriteRenamePublish,
    PlatformIoOperation::AppendObjectOpen,
    PlatformIoOperation::Append,
    PlatformIoOperation::Persist,
    PlatformIoOperation::WalRewrite,
    PlatformIoOperation::ObjectDelete,
    PlatformIoOperation::DirectoryCreate,
    PlatformIoOperation::DirectorySync,
    PlatformIoOperation::DirectoryListing,
    PlatformIoOperation::WriterLeaseAcquire,
];

fn assert_all_platform_rows(matrix: &PlatformIoBackendMatrix, class: PlatformIoTaskClass) {
    for operation in ALL_PLATFORM_OPERATIONS {
        assert_eq!(matrix.class_for(operation), class, "{operation:?}");
    }
}

struct PartialNativeRows {
    length_lookup: PlatformIoTaskClass,
    optional_whole_object_read: PlatformIoTaskClass,
    append_object_open: PlatformIoTaskClass,
    persist: PlatformIoTaskClass,
    object_delete: PlatformIoTaskClass,
    directory_create: PlatformIoTaskClass,
    directory_sync: PlatformIoTaskClass,
}

const WINDOWS_PARTIAL_NATIVE_ROWS: PartialNativeRows = PartialNativeRows {
    length_lookup: PlatformIoTaskClass::ThreadPoolManagedAsync,
    optional_whole_object_read: PlatformIoTaskClass::PlatformNativeAsyncButPartial,
    append_object_open: PlatformIoTaskClass::ThreadPoolManagedAsync,
    persist: PlatformIoTaskClass::ThreadPoolManagedAsync,
    object_delete: PlatformIoTaskClass::ThreadPoolManagedAsync,
    directory_create: PlatformIoTaskClass::ThreadPoolManagedAsync,
    directory_sync: PlatformIoTaskClass::ThreadPoolManagedAsync,
};

const MACOS_PARTIAL_NATIVE_ROWS: PartialNativeRows = PartialNativeRows {
    length_lookup: PlatformIoTaskClass::ThreadPoolManagedAsync,
    optional_whole_object_read: PlatformIoTaskClass::ThreadPoolManagedAsync,
    append_object_open: PlatformIoTaskClass::PlatformNativeAsyncButPartial,
    persist: PlatformIoTaskClass::PlatformNativeAsyncButPartial,
    object_delete: PlatformIoTaskClass::ThreadPoolManagedAsync,
    directory_create: PlatformIoTaskClass::ThreadPoolManagedAsync,
    directory_sync: PlatformIoTaskClass::PlatformNativeAsyncButPartial,
};

const BSD_SOLARISH_PARTIAL_NATIVE_ROWS: PartialNativeRows = PartialNativeRows {
    length_lookup: PlatformIoTaskClass::ThreadPoolManagedAsync,
    optional_whole_object_read: PlatformIoTaskClass::PlatformNativeAsyncButPartial,
    append_object_open: PlatformIoTaskClass::ThreadPoolManagedAsync,
    persist: PlatformIoTaskClass::PlatformNativeAsyncButPartial,
    object_delete: PlatformIoTaskClass::ThreadPoolManagedAsync,
    directory_create: PlatformIoTaskClass::ThreadPoolManagedAsync,
    directory_sync: PlatformIoTaskClass::PlatformNativeAsyncButPartial,
};

fn assert_partial_native_platform_matrix(
    matrix: &PlatformIoBackendMatrix,
    kind: PlatformIoBackendKind,
    rows: PartialNativeRows,
) {
    let partial = PlatformIoTaskClass::PlatformNativeAsyncButPartial;
    let pool = PlatformIoTaskClass::ThreadPoolManagedAsync;
    assert_eq!(matrix.kind, kind);
    let expected = [
        (PlatformIoOperation::LengthLookup, rows.length_lookup),
        (PlatformIoOperation::OwnedRandomRead, partial),
        (
            PlatformIoOperation::OptionalWholeObjectRead,
            rows.optional_whole_object_read,
        ),
        (PlatformIoOperation::TempWriteRenamePublish, partial),
        (PlatformIoOperation::AppendObjectOpen, rows.append_object_open),
        (PlatformIoOperation::Append, partial),
        (PlatformIoOperation::Persist, rows.persist),
        (PlatformIoOperation::WalRewrite, partial),
        (PlatformIoOperation::ObjectDelete, rows.object_delete),
        (PlatformIoOperation::DirectoryCreate, rows.directory_create),
        (PlatformIoOperation::DirectorySync, rows.directory_sync),
        (PlatformIoOperation::DirectoryListing, pool),
        (PlatformIoOperation::WriterLeaseAcquire, pool),
    ];
    for (operation, class) in expected {
        assert_eq!(matrix.class_for(operation), class, "{operation:?}");
    }
}

#[test]
fn platform_backend_matrix_matches_target_family() {
    let pool = selected_matrix(PlatformIoBackendKind::LinuxNative, false);
    assert_all_platform_rows(&pool, PlatformIoTaskClass::ThreadPoolManagedAsync);
    assert_eq!(pool.kind, PlatformIoBackendKind::ThreadPoolManaged);

    let unsupported = matrix(PlatformIoBackendKind::UnsupportedFallback);
    assert_eq!(unsupported.kind, PlatformIoBackendKind::UnsupportedFallback);
    assert_all_platform_rows(&unsupported, PlatformIoTaskClass::Unsupported);

    let linux = matrix(PlatformIoBackendKind::LinuxNative);
    assert_eq!(linux.kind, PlatformIoBackendKind::LinuxNative);
    for operation in ALL_PLATFORM_OPERATIONS {
        let expected = if matches!(
            operation,
            PlatformIoOperation::DirectoryListing | PlatformIoOperation::WriterLeaseAcquire
        ) {
            PlatformIoTaskClass::ThreadPoolManagedAsync
        } else {
            PlatformIoTaskClass::TruePlatformAsync
        };
        assert_eq!(linux.class_for(operation), expected, "{operation:?}");
    }

    assert_partial_native_platform_matrix(
        &matrix(PlatformIoBackendKind::WindowsNative),
        PlatformIoBackendKind::WindowsNative,
        WINDOWS_PARTIAL_NATIVE_ROWS,
    );
    assert_partial_native_platform_matrix(
        &matrix(PlatformIoBackendKind::MacOsNative),
        PlatformIoBackendKind::MacOsNative,
        MACOS_PARTIAL_NATIVE_ROWS,
    );
    assert_partial_native_platform_matrix(
        &matrix(PlatformIoBackendKind::FreeBsdNative),
        PlatformIoBackendKind::FreeBsdNative,
        BSD_SOLARISH_PARTIAL_NATIVE_ROWS,
    );
    assert_partial_native_platform_matrix(
        &matrix(PlatformIoBackendKind::SolarishNative),
        PlatformIoBackendKind::SolarishNative,
        BSD_SOLARISH_PARTIAL_NATIVE_ROWS,
    );
    let other = matrix(PlatformIoBackendKind::UnixFallback);
    assert_all_platform_rows(&other, PlatformIoTaskClass::ThreadPoolManagedAsync);
    assert_eq!(other.kind, PlatformIoBackendKind::UnixFallback);
}

#[test]
fn platform_scheduler_queue_has_a_hard_admission_bound() {
    let mut metrics = PlatformIoSchedulerMetrics::default();
    for _ in 0..PLATFORM_IO_SCHEDULER_QUEUE_DEPTH {
        assert!(reserve_platform_io_queue_slot(&mut metrics));
    }
    assert!(!reserve_platform_io_queue_slot(&mut metrics));
    assert_eq!(metrics.queued, PLATFORM_IO_SCHEDULER_QUEUE_DEPTH);
}

#[test]
fn platform_scheduler_orders_one_resource_without_serializing_unrelated_resources() {
    let path_a = "/trine-test/a.wal".to_string();
    let path_b = "/trine-test/b.wal".to_string();
    let read_a = PlatformIoTask::Len {
        path: path_a.clone(),
    }
    .resources();
    let second_read_a = PlatformIoTask::ReadExactAtOwned {
        path: path_a.clone(),
        offset: 0,
        len: 1,
    }
    .resources();
    let append_a = PlatformIoTask::Append {
        session: PlatformIoAppendSession::opened(&path_a),
        bytes: b"a".to_vec(),
        durability: DurabilityMode::Buffered,
    }
    .resources();
    let append_b = PlatformIoTask::Append {
        session: PlatformIoAppendSession::opened(&path_b),
        bytes: b"b".to_vec(),
        durability: DurabilityMode::Buffered,
    }
    .resources();

    let mut resources = PlatformIoResourceTable::default();
    resources.acquire(&read_a);
    assert!(resources.can_acquire(&second_read_a));
    assert!(!resources.can_acquire(&append_a));
    assert!(resources.can_acquire(&append_b));
    assert!(platform_io_resources_conflict(&append_a, &second_read_a));
    assert!(!platform_io_resources_conflict(&append_a, &append_b));
    resources.release(&read_a);
    assert!(resources.can_acquire(&append_a));
}

#[test]
fn abandoned_executor_task_completes_waiter_and_releases_resources() {
    let driver = PlatformIoDriver::new(matrix(PlatformIoBackendKind::ThreadPoolManaged));
    let mut control = PlatformIoControl::new();
    let mut scheduler = PlatformIoScheduler::new(driver.backend_matrix());
    let (task, mut completion) = driver
        .submit_len_path(&mut control, "/trine-test/abandoned".to_string())
        .expect("length lookup is accepted");
    assert!(scheduler.accept_received(&mut control, Some((7, task))).is_none());
    let scheduled = scheduler
        .dispatch_next(&mut control)
        .expect("the task may run");
    assert_eq!(scheduled.ticket, 7);
    assert_eq!(scheduled.class, PlatformIoTaskClass::ThreadPoolManagedAsync);
    scheduler.finish_dispatch(&mut control, true);
    assert_eq!(scheduler.active(), 1);

    let error = scheduler.abandon(&mut control, scheduled.ticket);
    let finished = completion.complete(Err(error)).expect("waiter completes");
    assert_eq!(
        finished.counted, None,
        "a task abandoned before an executor starts it must not claim an execution class"
    );
    let error = poll_ready_io(completion).expect_err("abandoned waiter completes with an error");
    assert!(error.text().contains("stopped before task completion"));
    assert_eq!(scheduler.active(), 0);
    assert_eq!(control.state, PlatformIoState::Failed);
    assert_eq!(control.metrics.in_flight, 0);
    assert_eq!(control.metrics.completed, 1);
}

#[test]
fn platform_async_capability_comes_from_the_selected_backend_matrix() {
    let unsupported = PlatformIoBackendMatrix {
        kind: PlatformIoBackendKind::UnsupportedFallback,
        length_lookup: PlatformIoTaskClass::Unsupported,
        owned_random_read: PlatformIoTaskClass::Unsupported,
        optional_whole_object_read: PlatformIoTaskClass::Unsupported,
        temp_write_rename_publish: PlatformIoTaskClass::Unsupported,
        append_object_open: PlatformIoTaskClass::Unsupported,
        append: PlatformIoTaskClass::Unsupported,
        persist: PlatformIoTaskClass::Unsupported,
        wal_rewrite: PlatformIoTaskClass::Unsupported,
        object_delete: PlatformIoTaskClass::Unsupported,
        directory_create: PlatformIoTaskClass::Unsupported,
        directory_sync: PlatformIoTaskClass::Unsupported,
        directory_listing: PlatformIoTaskClass::Unsupported,
        writer_lease_acquire: PlatformIoTaskClass::Unsupported,
    };
    assert!(!unsupported.supports_platform_async_io());

    let mut managed = unsupported;
    managed.kind = PlatformIoBackendKind::ThreadPoolManaged;
    managed.owned_random_read = PlatformIoTaskClass::ThreadPoolManagedAsync;
    assert!(managed.supports_platform_async_io());
    assert!(PlatformIoDriver::new(managed).supports_platform_async_io());
}

#[test]
fn completion_rejects_double_finish() {
    let mut completion: IoCompletion<Vec<u8>> = IoCompletion::new();
    completion
        .complete(Ok(b"first".to_vec()))
        .expect("first completion succeeds");
    let error = completion
        .complete(Ok(b"second".to_vec()))
        .expect_err("second completion fails");
    assert!(error.text().contains("already finished"));
}

#[test]
fn closing_drains_accepted_work_and_rejects_new_work() {
    let mut driver = PlatformIoDriver::new(matrix(PlatformIoBackendKind::ThreadPoolManaged));
    assert_eq!(PlatformIoDriver::info(), IoDriverInfo::platform());
    let mut control = PlatformIoControl::new();
    let mut scheduler = PlatformIoScheduler::new(driver.backend_matrix());
    let (task, _completion) = driver
        .submit_publish(
            &mut control,
            PlatformIoPublishPlan::manifest(
                "/trine-test/published".to_string(),
                "/trine-test/published.tmp".to_string(),
                b"accepted-before-close".to_vec(),
                DurabilityMode::Buffered,
            ),
        )
        .expect("write is accepted");

    assert!(driver.begin_close(&mut control));
    assert_eq!(control.state, PlatformIoState::Closing);
    assert!(scheduler.accept_received(&mut control, Some((1, task))).is_none());
    assert!(scheduler.accept_received(&mut control, None).is_none());
    let scheduled = scheduler
        .dispatch_next(&mut control)
        .expect("accepted write runs");
    assert_eq!(
        file_calls(&scheduled.task),
        vec![
            FileCall::CreateFile("/trine-test/published.tmp".to_string()),
            FileCall::Write,
            FileCall::Rename(
                "/trine-test/published.tmp".to_string(),
                "/trine-test/published".to_string()
            ),
        ]
    );
    scheduler.finish_dispatch(&mut control, true);
    assert_eq!(scheduler.next_wait(), PlatformIoWait::Completion);
    assert!(scheduler.accept_completed(&mut control, Some(1)));
    assert_eq!(scheduler.next_wait(), PlatformIoWait::Finished);
    control.end_close(false).expect("driver drains and joins");
    assert_eq!(control.state, PlatformIoState::Closed);

    let stats = driver.stats(&control);
    assert_eq!(stats.submitted, 1);
    assert_eq!(stats.completed, 1);
    assert_eq!(stats.queued, 0);
    assert_eq!(stats.in_flight, 0);

    let error = driver
        .submit_len_path(&mut control, "/trine-test/published".to_string())
        .expect_err("closed driver rejects new work");
    assert!(matches!(error, Error::Closed));
    assert_eq!(driver.stats(&control).rejected, 1);
    assert!(!driver.begin_close(&mut control));
}

#[test]
fn scheduler_lets_unrelated_work_pass_and_keeps_conflicting_work_in_order() {
    let driver = PlatformIoDriver::new(matrix(PlatformIoBackendKind::LinuxNative));
    let mut control = PlatformIoControl::new();
    let mut scheduler = PlatformIoScheduler::new(driver.backend_matrix());
    let session_a = PlatformIoAppendSession::opened("/trine-test/a.wal");
    let session_b = PlatformIoAppendSession::opened("/trine-test/b.wal");
    let sessions = [&session_a, &session_a, &session_b];
    for (ticket, session) in sessions.iter().enumerate() {
        let (task, _) = driver
            .submit_append(&mut control, session, b"x".to_vec(), DurabilityMode::SyncAll)
            .expect("append is accepted");
        assert!(control.sent(PlatformIoSend::Sent).is_ok());
        scheduler.accept_received(&mut control, Some((ticket as u64, task)));
    }
    let first = scheduler.dispatch_next(&mut control).expect("first append runs");
    assert_eq!(first.ticket, 0);
    assert_eq!(first.class, PlatformIoTaskClass::TruePlatformAsync);
    assert_eq!(route(first.class), PlatformIoRoute::Native);
    scheduler.finish_dispatch(&mut control, true);
    let other = scheduler.dispatch_next(&mut control).expect("unrelated append runs");
    assert_eq!(other.ticket, 2);
    scheduler.finish_dispatch(&mut control, true);
    assert!(scheduler.dispatch_next(&mut control).is_none());
    assert_eq!(scheduler.next_wait(), PlatformIoWait::InputOrCompletion);
    assert_eq!(control.metrics.max_in_flight, 2);
    assert_eq!(control.metrics.queued, 1);
    assert!(!scheduler.accept_completed(&mut control, Some(9)));
    assert!(scheduler.accept_completed(&mut control, Some(0)));
    let second = scheduler.dispatch_next(&mut control).expect("second append runs");
    assert_eq!(second.ticket, 1);
    scheduler.finish_dispatch(&mut control, true);
    assert_eq!(control.metrics.submitted, 3);
    assert_eq!(control.metrics.completed, 1);
    assert_eq!(control.metrics.in_flight, 2);
}

#[test]
fn lost_executor_fails_the_scheduler_and_everything_that_waits() {
    let driver = PlatformIoDriver::new(matrix(PlatformIoBackendKind::ThreadPoolManaged));
    let mut control = PlatformIoControl::new();
    let mut scheduler = PlatformIoScheduler::new(driver.backend_matrix());
    for ticket in 0..3u64 {
        let (task, _) = driver
            .submit_delete_path(&mut control, format!("/trine-test/{ticket}/file"))
            .expect("delete is accepted");
        scheduler.accept_received(&mut control, Some((ticket, task)));
    }
    let scheduled = scheduler.dispatch_next(&mut control).expect("delete runs");
    assert!(scheduler.is_offering());
    scheduler.finish_dispatch(&mut control, false);
    assert_eq!(scheduled.ticket, 0);
    assert_eq!(control.state, PlatformIoState::Failed);
    assert_eq!(scheduler.fail_pending_if_needed(&mut control), vec![1, 2]);
    assert_eq!(control.metrics.queued, 0);
    assert_eq!(control.metrics.completed, 3);
    let late = PlatformIoTask::SyncDir {
        path: "/trine-test".to_string(),
    };
    control.metrics.queued = 1;
    assert_eq!(scheduler.accept_received(&mut control, Some((5, late))), Some(5));
    let error = driver
        .submit_sync_dir_path(&mut control, "/trine-test".to_string())
        .expect_err("failed driver refuses");
    assert_eq!(error.kind(), ErrorKind::RuntimeBusy);
    assert_eq!(error.text(), "platform I/O scheduler is in a failed state");
    assert!(scheduler.stop(&mut control, vec![8]).contains(&8));
    assert_eq!(
        PlatformIoStartFailure::Stopped.error().text(),
        "platform I/O scheduler stopped before task admission"
    );
}

#[test]
fn scheduler_runs_no_more_than_the_limit_side_by_side() {
    let driver = PlatformIoDriver::new(matrix(PlatformIoBackendKind::ThreadPoolManaged));
    let mut control = PlatformIoControl::new();
    let mut scheduler = PlatformIoScheduler::new(driver.backend_matrix());
    let count = PLATFORM_IO_MAX_IN_FLIGHT as u64 + 2;
    for ticket in 0..count {
        let (task, _) = driver
            .submit_len_path(&mut control, "/trine-test/shared".to_string())
            .expect("read is accepted");
        scheduler.accept_received(&mut control, Some((ticket, task)));
    }
    let mut begun = 0;
    while scheduler.dispatch_next(&mut control).is_some() {
        scheduler.finish_dispatch(&mut control, true);
        begun += 1;
    }
    assert_eq!(begun, PLATFORM_IO_MAX_IN_FLIGHT);
    assert_eq!(control.metrics.queued, 2);
}

#[test]
fn refused_sends_leave_only_the_refusal() {
    let mut control = PlatformIoControl::new();
    control.let_in(true).expect("there is room");
    let error = control.sent(PlatformIoSend::Full).expect_err("queue is full");
    assert_eq!(error.text(), "platform I/O scheduler queue is full");
    assert_eq!(control.metrics.queued, 0);
    assert_eq!(control.metrics.submitted, 0);
    assert_eq!(control.metrics.rejected, 1);
    control.let_in(true).expect("there is room");
    let error = control
        .sent(PlatformIoSend::Disconnected)
        .expect_err("scheduler is gone");
    assert!(matches!(error, Error::Closed));
    let error = control.let_in(false).expect_err("no queue");
    assert!(matches!(error, Error::Closed));
    control.begin_native();
    control.begin_native();
    control.end_native();
    assert_eq!(control.metrics.native_in_flight, 1);
    assert_eq!(control.metrics.native_max_in_flight, 2);
    assert!(control.begin_close());
    let error = control.end_close(true).expect_err("scheduler panicked");
    assert_eq!(error.text(), "platform I/O scheduler panicked");
}

#[test]
fn publish_plans_sync_as_the_durability_asks() {
    let plan = PlatformIoPublishPlan::object(
        "/data/tables/1.tbl".to_string(),
        "/data/tables/1.tmp".to_string(),
        b"rows".to_vec(),
        DurabilityMode::SyncAll,
    );
    assert_eq!(
        file_calls(&PlatformIoTask::Publish { plan }),
        vec![
            FileCall::CreateDirAll("/data/tables".to_string()),
            FileCall::CreateFile("/data/tables/1.tmp".to_string()),
            FileCall::Write,
            FileCall::Sync(FileSync::All),
            FileCall::Rename(
                "/data/tables/1.tmp".to_string(),
                "/data/tables/1.tbl".to_string()
            ),
            FileCall::SyncDir("/data/tables".to_string()),
        ]
    );
    assert_eq!(sync_for_publish(DurabilityMode::Flush), FileSync::Data);
    assert_eq!(sync_for_log(DurabilityMode::Flush), FileSync::Nothing);
    assert_eq!(sync_for_log(DurabilityMode::SyncAllStrict), FileSync::All);
    assert!(!requires_parent_dir_sync_after_rename(DurabilityMode::SyncData));
    let buffered = PlatformIoTask::Persist {
        session: PlatformIoAppendSession::opened("/data/0.wal"),
        durability: DurabilityMode::Buffered,
    };
    assert!(file_calls(&buffered).is_empty());
    let lease = PlatformIoTask::AcquireWriterLease {
        path: "LOCK".to_string(),
        owner: b"me".to_vec(),
    };
    assert_eq!(
        file_calls(&lease),
        vec![
            FileCall::CreateDirAll(String::new()),
            FileCall::OpenOrCreate("LOCK".to_string()),
            FileCall::Lock("LOCK".to_string()),
            FileCall::Truncate,
            FileCall::Write,
        ]
    );
}

#[test]
fn optional_reads_are_bounded() {
    assert_eq!(optional_read_len("a", None, 3).expect("missing is fine"), None);
    assert_eq!(optional_read_len("a", Some(3), 3).expect("it fits"), Some(3));
    let error = optional_read_len("a", Some(4), 3).expect_err("too long");
    assert_eq!(error.kind(), ErrorKind::Corruption);
    assert_eq!(error.text(), "object a length 4 exceeds maximum 3");
    lease_outcome("a", true).expect("locked");
    let error = lease_outcome("db/LOCK", false).expect_err("held elsewhere");
    assert_eq!(error.text(), "database lock is already held: db/LOCK");
}

#[test]
fn normalizing_claims_each_resource_once() {
    let request = |path: &str, access: PlatformIoAccess| PlatformIoResourceRequest {
        key: PlatformIoResourceKey::Object(path.to_string()),
        access,
    };
    let requests = normalize_platform_io_resources(vec![
        request("a", PlatformIoAccess::Shared),
        request("b", PlatformIoAccess::Shared),
        request("a", PlatformIoAccess::Exclusive),
        request("a", PlatformIoAccess::Shared),
    ]);
    assert_eq!(requests.len(), 2);
    assert!(requests.contains(&request("a", PlatformIoAccess::Exclusive)));
    assert!(requests.contains(&request("b", PlatformIoAccess::Shared)));
}

#[test]
fn paths_are_read_by_components() {
    assert_eq!(parent_directory("/a/b/"), Some("/a".to_string()));
    assert_eq!(parent_directory("/"), None);
    assert_eq!(parent_directory("//"), None);
    assert_eq!(parent_directory(""), None);
    assert_eq!(parent_directory("a"), Some(String::new()));
    assert_eq!(parent_directory("./a"), Some(".".to_string()));
    assert_eq!(parent_directory("."), Some(String::new()));
    assert_eq!(parent_directory("a//./b/."), Some("a".to_string()));
    assert_eq!(parent_directory("/a"), Some("/".to_string()));
    assert_eq!(path_components("/a//./b/"), vec!["a", "b"]);
    assert_eq!(path_components("./a/../b"), vec![".", "a", "..", "b"]);
    assert!(same_path("a//b", "a/b"));
    assert!(same_path("/a/./b/", "/a/b"));
    assert!(!same_path("./a", "a"));
    assert!(!same_path("/a", "a"));
    assert!(!same_path("a/../b", "b"));
    for path in ["a//b", "/x/./y/", "..", "/", "a", "./b", ""] {
        for other in ["a/b", "/x/y", "..", "//", "a/", "./b/.", "b"] {
            assert_eq!(
                same_path(path, other),
                std::path::Path::new(path) == std::path::Path::new(other)
            );
        }
        assert_eq!(
            parent_directory(path).as_deref(),
            std::path::Path::new(path)
                .parent()
                .and_then(|parent| parent.to_str())
        );
    }
}

#[test]
fn operations_on_one_file_under_two_spellings_conflict() {
    let request = |path: &str, access: PlatformIoAccess| PlatformIoResourceRequest {
        key: PlatformIoResourceKey::Object(path.to_string()),
        access,
    };
    assert!(platform_io_resources_conflict(
        &vec![request("a//b", PlatformIoAccess::Exclusive)],
        &vec![request("a/b", PlatformIoAccess::Shared)],
    ));
    assert_eq!(
        normalize_platform_io_resources(vec![
            request("a/./b", PlatformIoAccess::Shared),
            request("a/b/", PlatformIoAccess::Shared),
        ])
        .len(),
        1
    );
}

#[test]
fn completion_wakes_and_counts_once() {
    let mut completion: IoCompletion<u64> =
        IoCompletion::new_platform(PlatformIoOperation::LengthLookup);
    assert!(completion.poll(3).is_none());
    completion
        .mark_platform_execution(PlatformIoTaskClass::TruePlatformAsync)
        .expect("marked once");
    let error = completion
        .mark_platform_execution(PlatformIoTaskClass::TruePlatformAsync)
        .expect_err("marked twice");
    assert!(error.text().contains("more than once"));
    let finished = completion.complete(Ok(42)).expect("completes");
    assert_eq!(finished.woken, Some(3));
    assert_eq!(
        finished.counted,
        Some((
            PlatformIoOperation::LengthLookup,
            PlatformIoTaskClass::TruePlatformAsync
        ))
    );
    let error = completion
        .mark_platform_execution(PlatformIoTaskClass::TruePlatformAsync)
        .expect_err("already complete");
    assert!(error.text().contains("after completion"));
    assert_eq!(poll_ready_io(completion).expect("value"), 42);
    let lost: Result<u64, Error> = blocking_outcome(None);
    assert_eq!(lost.expect_err("worker is gone").kind(), ErrorKind::RuntimeBusy);
}
