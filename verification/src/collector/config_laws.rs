//! What the collector is configured to do and what it reports of itself, told value by value.

use vstd::prelude::*;

use crate::collector::config::{forward_to_of, target_of, Cli, Config, TargetRefusal, TargetView};
use crate::collector::metrics::{health_request, reported, whole_seconds, Health};
use crate::collector::peer::nanos_of_ticks;
use crate::environment::{directory, path_in, variable};
use crate::otlp::proto::{AnyView, AttrView};
use crate::text::{before, begins_with, lemma_first_index, lemma_first_index_unique};
use crate::time::Duration;

verus! {

/// The value of a variable is the last one given under its name.
pub proof fn law_the_last_value_of_a_variable_counts(env: Seq<(String, String)>, key: Seq<char>)
    ensures
        variable(env, key) is None <==> forall|i: int| 0 <= i < env.len() ==> (#[trigger] env[i]).0@ != key,
        variable(env, key) matches Some(value) ==> exists|i: int|
            0 <= i < env.len() && (#[trigger] env[i]).0@ == key && env[i].1@ == value && forall|j: int|
                i < j < env.len() ==> (#[trigger] env[j]).0@ != key,
    decreases env.len(),
{
    if env.len() > 0 {
        let front = env.drop_last();
        law_the_last_value_of_a_variable_counts(front, key);
        assert(env[env.len() - 1] == env.last());
        if env.last().0@ != key {
            if variable(front, key) is None {
                assert forall|i: int| 0 <= i < env.len() implies (#[trigger] env[i]).0@ != key by {
                    if i < front.len() {
                        assert(front[i] == env[i]);
                    }
                }
            } else {
                let value = variable(front, key)->0;
                let i = choose|i: int|
                    0 <= i < front.len() && (#[trigger] front[i]).0@ == key && front[i].1@ == value && forall|j: int|
                        i < j < front.len() ==> (#[trigger] front[j]).0@ != key;
                assert(env[i] == front[i]);
                assert forall|j: int| i < j < env.len() implies (#[trigger] env[j]).0@ != key by {
                    if j < front.len() {
                        assert(front[j] == env[j]);
                    }
                }
            }
        }
    }
}

/// Whether a value names a directory first: it is the directory, or the directory, a colon and more.
pub open spec fn names_first(value: Seq<char>, dir: Seq<char>) -> bool {
    &&& dir.len() > 0
    &&& !dir.contains(':')
    &&& dir.len() <= value.len() && value.take(dir.len() as int) == dir
    &&& dir.len() < value.len() ==> value[dir.len() as int] == ':'
}

/// The directory that a variable names is the first of its list, where that is not empty.
pub proof fn law_the_first_directory_counts(env: Seq<(String, String)>, key: Seq<char>)
    ensures
        directory(env, key) matches Some(dir) ==> variable(env, key) is Some && names_first(
            variable(env, key)->0,
            dir,
        ),
        directory(env, key) is None ==> (variable(env, key) matches Some(value) ==> value.len() == 0 || value[0]
            == ':'),
{
    if variable(env, key) is Some {
        lemma_first_index(variable(env, key)->0, ':');
    }
}

/// A path in a directory is the directory and the file with one slash between them.
pub proof fn law_a_path_has_one_slash(dir: Seq<char>, file: Seq<char>)
    requires
        dir.len() > 0,
    ensures
        dir.last() == '/' ==> path_in(dir, file) == dir + file,
        dir.last() != '/' ==> path_in(dir, file) == dir + seq!['/'] + file,
        path_in(Seq::<char>::empty(), file) == file,
{
    assert(dir.push('/') + file =~= dir + seq!['/'] + file);
    assert(Seq::<char>::empty() + file =~= file);
}

proof fn lemma_schemes()
    ensures
        "http://"@ =~= seq!['h', 't', 't', 'p', ':', '/', '/'],
        "https://"@ =~= seq!['h', 't', 't', 'p', 's', ':', '/', '/'],
        "/"@ =~= seq!['/'],
{
    reveal_strlit("http://");
    reveal_strlit("https://");
    reveal_strlit("/");
}

/// A host behind `http://` is reached over TCP at the path that follows it, or at the logs endpoint
/// where none does; a URL without a host is refused, and so is one with `https://`, whatever follows.
/// Everything else is the path of a socket, but for nothing at all.
pub proof fn law_targets_are_told_apart(host: Seq<char>, path: Seq<char>, raw: Seq<char>)
    requires
        !host.contains('/'),
        path.len() > 0 ==> path[0] == '/',
    ensures
        host.len() > 0 && path.len() <= 1 ==> target_of("http://"@ + host + path) == Ok::<TargetView, TargetRefusal>(
            TargetView::Http { authority: host, path: "/v1/logs"@ },
        ),
        host.len() > 0 && path.len() > 1 ==> target_of("http://"@ + host + path) == Ok::<TargetView, TargetRefusal>(
            TargetView::Http { authority: host, path },
        ),
        target_of("http://"@ + path) == Err::<TargetView, TargetRefusal>(TargetRefusal::NoHost),
        target_of("https://"@ + raw) == Err::<TargetView, TargetRefusal>(TargetRefusal::Tls),
        target_of(Seq::<char>::empty()) == Err::<TargetView, TargetRefusal>(TargetRefusal::Empty),
        raw.len() > 0 && !begins_with(raw, "http://"@) && !begins_with(raw, "https://"@) ==> target_of(raw)
            == Ok::<TargetView, TargetRefusal>(TargetView::Unix(raw)),
{
    lemma_schemes();
    let http = "http://"@;
    let https = "https://"@;
    let url = http + host + path;
    assert(url.take(7) =~= http);
    assert(!begins_with(url, https)) by {
        if begins_with(url, https) {
            assert(url.take(8)[4] == https[4]);
            assert(url[4] == http[4]);
        }
    }
    let rest = url.skip(7);
    assert(rest =~= host + path);
    assert forall|i: int| 0 <= i < host.len() implies #[trigger] rest[i] != '/' by {
        assert(host.contains(host[i]));
    }
    lemma_first_index_unique(rest, '/', host.len() as int);
    assert(before(rest, '/') =~= host);
    assert(rest.skip(host.len() as int) =~= path);
    if path.len() == 1 {
        assert(path =~= "/"@);
    }
    if path.len() > 1 {
        assert("/"@.len() == 1);
    }
    let bare = http + path;
    assert(bare.take(7) =~= http);
    assert(!begins_with(bare, https)) by {
        if begins_with(bare, https) {
            assert(bare.take(8)[4] == https[4]);
            assert(bare[4] == http[4]);
        }
    }
    assert(bare.skip(7) =~= path);
    lemma_first_index_unique(path, '/', 0);
    assert(before(path, '/') =~= Seq::<char>::empty());
    assert((https + raw).take(8) =~= https);
}

/// Whatever is given counts, and what is not given has its default.
pub proof fn law_settings_are_those_given(config: Config, args: Cli, env: Seq<(String, String)>)
    requires
        config.resolves(args, env),
    ensures
        args.socket matches Some(path) ==> config.socket_path@ == path@,
        args.state_dir matches Some(path) ==> config.state_dir@ == path@,
        args.forward_to matches Some(raw) ==> forward_to_of(args) == raw@,
        args.forward_to is None ==> forward_to_of(args) == "/run/monitoring-platform/monitoring-platform.sock"@,
        args.buffer_max_records matches Some(n) ==> config.buffer_max_records == n,
        args.buffer_max_records is None ==> config.buffer_max_records == 100_000,
        args.buffer_max_bytes matches Some(n) ==> config.buffer_max_bytes == n,
        args.buffer_max_bytes is None ==> config.buffer_max_bytes == 64 * 1024 * 1024,
        args.buffer_timeout_secs matches Some(n) ==> config.buffer_timeout@ == n * 1_000_000_000,
        args.buffer_timeout_secs is None ==> config.buffer_timeout@ == 300 * 1_000_000_000,
        args.grace_millis matches Some(n) ==> config.grace@ == n * 1_000_000,
        args.grace_millis is None ==> config.grace@ == 500 * 1_000_000,
        args.forward_timeout_secs matches Some(n) ==> config.forward_timeout@ == n * 1_000_000_000,
        args.forward_timeout_secs is None ==> config.forward_timeout@ == 30 * 1_000_000_000,
        args.retry_max_secs matches Some(n) ==> config.retry_max@ == n * 1_000_000_000,
        args.retry_max_secs is None ==> config.retry_max@ == 10 * 1_000_000_000,
        args.health_interval_secs == Some(0u64) <==> config.health_interval is None,
        args.health_interval_secs matches Some(n) ==> (config.health_interval matches Some(d) ==> d@ == n
            * 1_000_000_000),
        args.health_interval_secs is None ==> (config.health_interval matches Some(d) && d@ == 60 * 1_000_000_000),
        args.clock_threshold_micros matches Some(n) ==> config.clock_threshold_micros == n,
        args.clock_threshold_micros is None ==> config.clock_threshold_micros == 5_000_000,
        args.clock_consecutive matches Some(n) ==> config.clock_consecutive == n,
        args.clock_consecutive is None ==> config.clock_consecutive == 3,
        config.journal_backfill == args.journal_backfill,
        args.max_body_bytes matches Some(n) ==> config.max_body_bytes == n,
        args.max_body_bytes is None ==> config.max_body_bytes == 4 * 1024 * 1024,
        args.max_decompressed_bytes matches Some(n) ==> config.max_decompressed_bytes == n,
        args.max_decompressed_bytes is None ==> config.max_decompressed_bytes == 32 * 1024 * 1024,
        config.tolerance_nanos == 50_000_000,
        config.resync_threshold_nanos == 200_000_000,
        config.journal_step_threshold_nanos == 100_000_000,
{
}

/// A socket or a directory that is not given is looked for where the service manager put it, and else
/// here.
pub proof fn law_paths_come_from_the_service_manager(config: Config, args: Cli, env: Seq<(String, String)>)
    requires
        config.resolves(args, env),
    ensures
        args.socket is None ==> (directory(env, "RUNTIME_DIRECTORY"@) matches Some(dir) ==> config.socket_path@
            == path_in(dir, "mp-collector.sock"@)),
        args.socket is None && directory(env, "RUNTIME_DIRECTORY"@) is None ==> config.socket_path@
            == "./mp-collector.sock"@,
        args.state_dir is None ==> (directory(env, "STATE_DIRECTORY"@) matches Some(dir) ==> config.state_dir@
            == dir),
        args.state_dir is None && directory(env, "STATE_DIRECTORY"@) is None ==> config.state_dir@ == "."@,
{
}

/// Whether an event's body says this under a key.
pub open spec fn body_says(body: Seq<AttrView>, key: Seq<char>, value: AnyView) -> bool {
    body.contains(AttrView { key, value: Some(value), key_strindex: 0 })
}

/// Every value of a reading is in the event that reports it, under its own name, and nothing else is. A
/// clock that was not stepped has no age of its last step, which no number stands for.
pub proof fn law_a_report_says_what_was_read(h: Health)
    requires
        h.steps <= i64::MAX && h.epochs <= i64::MAX && h.buffered_records <= i64::MAX,
        h.resolved_exact <= i64::MAX && h.resolved_ambiguous <= i64::MAX && h.resolved_passthrough <= i64::MAX,
        h.resolved_authoritative <= i64::MAX && h.forwarded_batches <= i64::MAX && h.shed_batches <= i64::MAX,
    ensures
        reported(h).len() == 13,
        body_says(reported(h), "clock.max_error_micros"@, AnyView::Int(h.max_error_micros)),
        body_says(reported(h), "clock.disciplined"@, AnyView::Bool(h.disciplined)),
        body_says(reported(h), "clock.steps"@, AnyView::Int(h.steps as i64)),
        h.since_last_step matches Some(d) ==> body_says(
            reported(h),
            "clock.seconds_since_last_step"@,
            whole_seconds(d),
        ),
        h.since_last_step is None ==> body_says(
            reported(h),
            "clock.seconds_since_last_step"@,
            AnyView::Array(seq![AnyView::Unset]),
        ),
        body_says(reported(h), "clock.epochs"@, AnyView::Int(h.epochs as i64)),
        body_says(reported(h), "resolved.exact"@, AnyView::Int(h.resolved_exact as i64)),
        body_says(reported(h), "resolved.ambiguous"@, AnyView::Int(h.resolved_ambiguous as i64)),
        body_says(reported(h), "resolved.passthrough"@, AnyView::Int(h.resolved_passthrough as i64)),
        body_says(reported(h), "resolved.authoritative"@, AnyView::Int(h.resolved_authoritative as i64)),
        body_says(reported(h), "buffer.records"@, AnyView::Int(h.buffered_records as i64)),
        body_says(reported(h), "buffer.oldest_seconds"@, whole_seconds(h.oldest_buffered)),
        body_says(reported(h), "forwarded.batches"@, AnyView::Int(h.forwarded_batches as i64)),
        body_says(reported(h), "shed.batches"@, AnyView::Int(h.shed_batches as i64)),
{
    let body = reported(h);
    assert(body[0] == body[0] && body[1] == body[1] && body[2] == body[2] && body[3] == body[3]);
    assert forall|i: int| 0 <= i < 13 implies body.contains(#[trigger] body[i]) by {}
    assert(body.contains(body[0]) && body.contains(body[1]) && body.contains(body[2]) && body.contains(body[3]));
    assert(body.contains(body[4]) && body.contains(body[5]) && body.contains(body[6]) && body.contains(body[7]));
    assert(body.contains(body[8]) && body.contains(body[9]) && body.contains(body[10]) && body.contains(body[11]));
    assert(body.contains(body[12]));
}

/// A report is one event, with the values in its body and none in its attributes, at the time of the
/// reading, or at the epoch where the clock is before it.
pub proof fn law_a_report_is_one_event(h: Health, now: i64, boot_id: Seq<char>)
    ensures
        ({
            let request = health_request(h, now, boot_id);
            let record = request[0].scope_logs[0].log_records[0];
            &&& request.len() == 1 && request[0].scope_logs.len() == 1
            &&& request[0].scope_logs[0].log_records.len() == 1
            &&& record.event_name == "mp.collector.health"@
            &&& record.body == Some(AnyView::List(reported(h)))
            &&& record.attributes.len() == 0
            &&& now >= 0 ==> record.time_unix_nano == now && record.observed_time_unix_nano == now
            &&& now < 0 ==> record.time_unix_nano == 0 && record.observed_time_unix_nano == 0
            &&& request[0].resource is Some
            &&& body_says(request[0].resource->0.attributes, "service.name"@, AnyView::Text("mp-collector"@))
            &&& body_says(request[0].resource->0.attributes, "boot.id"@, AnyView::Text(boot_id))
            &&& request[0].resource->0.attributes.len() == 2
        }),
{
    let attributes = health_request(h, now, boot_id)[0].resource->0.attributes;
    assert(attributes.contains(attributes[0]));
    assert(attributes.contains(attributes[1]));
}

/// A duration is reported as the seconds that it has completed.
pub proof fn law_seconds_are_completed_ones(d: Duration)
    requires
        d@ < i64::MAX,
    ensures
        whole_seconds(d) is Int,
        whole_seconds(d)->Int_0 * 1_000_000_000 <= d@,
        d@ < (whole_seconds(d)->Int_0 + 1) * 1_000_000_000,
{
}

/// Ticks come to the nanoseconds that they have completed, where these fit and there is a rate.
pub proof fn law_ticks_are_completed_nanoseconds(ticks: u64, rate: i64)
    ensures
        rate <= 0 ==> nanos_of_ticks(ticks, rate) is None,
        rate > 0 ==> match nanos_of_ticks(ticks, rate) {
            Some(n) => n * rate <= ticks * 1_000_000_000 < (n + 1) * rate,
            None => ticks * 1_000_000_000 >= (i64::MAX + 1) * rate,
        },
{
    if rate > 0 {
        let t = ticks * 1_000_000_000;
        let r = rate as int;
        vstd::arithmetic::div_mod::lemma_fundamental_div_mod(t, r);
        let q = t / r;
        assert(q * r <= t < (q + 1) * r) by (nonlinear_arith)
            requires
                t == r * q + t % r,
                0 <= t % r < r,
        ;
        if q > i64::MAX {
            assert(q * r >= (i64::MAX + 1) * r) by (nonlinear_arith)
                requires
                    q >= i64::MAX + 1,
                    r > 0,
            ;
        }
        assert(q >= 0) by (nonlinear_arith)
            requires
                (q + 1) * r > t,
                t >= 0,
                r > 0,
        ;
    }
}

} // verus!
