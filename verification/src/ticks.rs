//! .NET DateTime ticks (100 ns intervals since 0001-01-01 UTC).

use vstd::prelude::*;

verus! {

/// Ticks of the Unix epoch, 1970-01-01 UTC.
pub const DOTNET_EPOCH_TICKS: u64 = 621_355_968_000_000_000;

/// Ticks per second.
pub const TICKS_PER_SEC: u64 = 10_000_000;

/// `std::time::SystemTime`.
#[verifier::external_type_specification]
#[verifier::external_body]
pub struct ExSystemTime(std::time::SystemTime);

/// Calls `SystemTime::now`. Nothing is promised of the clock's reading.
#[verifier::external_body]
fn system_time_now() -> std::time::SystemTime {
    std::time::SystemTime::now()
}

/// Calls `SystemTime::duration_since(UNIX_EPOCH)`: the time since the Unix epoch,
/// `None` for a time before it. Nothing is promised of the duration itself.
#[verifier::external_body]
fn duration_since_unix_epoch(t: std::time::SystemTime) -> Option<std::time::Duration> {
    match t.duration_since(std::time::UNIX_EPOCH) {
        Ok(d) => Some(d),
        Err(_) => None,
    }
}

/// Calls `Duration::as_secs`: the whole seconds of a duration.
#[verifier::external_body]
fn duration_as_secs(d: &std::time::Duration) -> u64 {
    d.as_secs()
}

/// Calls `Duration::subsec_nanos`: the nanoseconds below a whole second, which
/// its documentation says are always less than one billion.
#[verifier::external_body]
fn duration_subsec_nanos(d: &std::time::Duration) -> (n: u32)
    ensures
        n < 1_000_000_000,
{
    d.subsec_nanos()
}

/// Ticks of a point in time given as seconds and nanoseconds after the Unix epoch.
pub open spec fn dotnet_ticks_spec(secs: nat, nanos: nat) -> int {
    DOTNET_EPOCH_TICKS + secs * TICKS_PER_SEC + nanos / 100
}

/// Ticks of a time `secs` seconds and `subsec_nanos` nanoseconds after the Unix epoch.
pub fn dotnet_ticks_from_unix(secs: u64, subsec_nanos: u32) -> (t: u64)
    requires
        dotnet_ticks_spec(secs as nat, subsec_nanos as nat) <= u64::MAX,
    ensures
        t == dotnet_ticks_spec(secs as nat, subsec_nanos as nat),
{
    DOTNET_EPOCH_TICKS + secs * TICKS_PER_SEC + (subsec_nanos as u64) / 100
}

/// Current UTC .NET DateTime ticks: the ticks of some clock reading in whole
/// seconds and nanoseconds after the Unix epoch. `None` when the clock reads
/// before the Unix epoch, or when its ticks do not fit in `u64`.
pub fn dotnet_ticks_from_system_time() -> (t: Option<u64>)
    ensures
        t matches Some(v) ==> exists|secs: nat, nanos: nat|
            nanos < 1_000_000_000 && v == #[trigger] dotnet_ticks_spec(secs, nanos),
{
    let now = system_time_now();
    match duration_since_unix_epoch(now) {
        Some(d) => {
            let secs = duration_as_secs(&d);
            let nanos = duration_subsec_nanos(&d);
            ticks_checked(secs, nanos)
        },
        None => None,
    }
}

/// Ticks of a time `secs` seconds and `subsec_nanos` nanoseconds after the Unix
/// epoch, `None` exactly when they do not fit in `u64`.
pub fn ticks_checked(secs: u64, subsec_nanos: u32) -> (t: Option<u64>)
    ensures
        dotnet_ticks_spec(secs as nat, subsec_nanos as nat) <= u64::MAX ==> t == Some(
            dotnet_ticks_spec(secs as nat, subsec_nanos as nat) as u64,
        ),
        dotnet_ticks_spec(secs as nat, subsec_nanos as nat) > u64::MAX ==> t is None,
{
    let scaled = match secs.checked_mul(TICKS_PER_SEC) {
        Some(v) => v,
        None => {
            return None;
        },
    };
    let base = match DOTNET_EPOCH_TICKS.checked_add(scaled) {
        Some(v) => v,
        None => {
            return None;
        },
    };
    base.checked_add((subsec_nanos as u64) / 100)
}

} // verus!
