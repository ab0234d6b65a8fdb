//! What holds of pieces, of the messages between peers, of downloads, and of what peers are paid.
use crate::bytes::be_value;
use crate::bytes::lemma_be_roundtrip;
use crate::bytes::lemma_pow256_values;
use crate::text::decimal;
use crate::torrent::disk::is_piece;
use crate::torrent::disk::is_safe_part;
use crate::torrent::disk::path_of;
use crate::torrent::disk::piece_size;
use crate::torrent::disk::safe_path;
use crate::torrent::double::excess_digits;
use crate::torrent::double::hundredths;
use crate::torrent::double::millionths;
use crate::torrent::double::nearest;
use crate::torrent::double::padded;
use crate::torrent::double::rounded;
use crate::torrent::double::size_text;
use crate::torrent::engine::asks_tracker;
use crate::torrent::engine::client_name;
use crate::torrent::engine::finished_session;
use crate::torrent::engine::is_next_action;
use crate::torrent::engine::peer_address;
use crate::torrent::engine::run_announced;
use crate::torrent::engine::run_fetched;
use crate::torrent::engine::run_start;
use crate::torrent::engine::without_udp;
use crate::torrent::engine::EngineAction;
use crate::torrent::engine::EnginePhase;
use crate::torrent::engine::Run;
use crate::torrent::engine::TrackerRequest;
use crate::torrent::incentive::clipped;
use crate::torrent::incentive::earned;
use crate::torrent::incentive::fresh_account;
use crate::torrent::incentive::owed;
use crate::torrent::incentive::settled;
use crate::torrent::incentive::settlement_due;
use crate::torrent::incentive::Account;
use crate::torrent::incentive::COIN;
use crate::torrent::metainfo::trackers_of;
use crate::torrent::metainfo::Meta;
use crate::torrent::peer_task::after_storing;
use crate::torrent::peer_task::part_after;
use crate::torrent::peer_task::pieces_after;
use crate::torrent::peer_task::step_for;
use crate::torrent::peer_task::task_after;
use crate::torrent::peer_task::Step;
use crate::torrent::peer_task::Task;
use crate::torrent::peer_wire::body_of;
use crate::torrent::peer_wire::first_handshake;
use crate::torrent::peer_wire::first_message;
use crate::torrent::peer_wire::message_bytes;
use crate::torrent::peer_wire::message_in;
use crate::torrent::peer_wire::protocol_name;
use crate::torrent::peer_wire::Message;
use crate::torrent::peer_wire::HANDSHAKE_LENGTH;
use crate::torrent::peer_wire::MAX_MESSAGE_LENGTH;
use crate::torrent::pieces::all_received;
use crate::torrent::pieces::file_start;
use crate::torrent::pieces::no_blocks;
use crate::torrent::pieces::piece_parts;
use crate::torrent::pieces::segments;
use crate::torrent::pieces::with_block;
use crate::torrent::pieces::Assembly;
use crate::torrent::scheduler::asked;
use crate::torrent::scheduler::availability;
use crate::torrent::scheduler::bit_set;
use crate::torrent::scheduler::bit_weight;
use crate::torrent::scheduler::bitfield;
use crate::torrent::scheduler::bits_of;
use crate::torrent::scheduler::block_chosen;
use crate::torrent::scheduler::block_length;
use crate::torrent::scheduler::holds;
use crate::torrent::scheduler::is_rarest;
use crate::torrent::scheduler::loaded;
use crate::torrent::scheduler::marked;
use crate::torrent::scheduler::missing;
use crate::torrent::scheduler::next_begin;
use crate::torrent::scheduler::piece_goes_on;
use crate::torrent::scheduler::Pieces;
use crate::torrent::scheduler::Schedule;
use crate::torrent::scheduler::BLOCK_SIZE;
use crate::torrent::scheduler::PIPELINED_BLOCKS;
use crate::torrent::session::active;
use crate::torrent::session::active_accounts;
use crate::torrent::session::evicted;
use crate::torrent::session::fresh_session;
use crate::torrent::session::noted;
use crate::torrent::session::speed_text;
use crate::torrent::session::state_name;
use crate::torrent::session::Session;
use crate::torrent::session::SessionState;
use crate::torrent::tracker::AnnounceEvent;
use crate::torrent::tracker::Peer;
use vstd::arithmetic::power2::pow2;
use vstd::prelude::*;
use vstd::string::*;

verus! {

// ---- arithmetic on binary numbers ----

/// The nearest integer to a quotient is at most half a unit away, and of two that are equally near
/// it is the even one.
pub proof fn law_nearest(n: nat, d: nat)
    requires
        d > 0,
    ensures
        2 * (d * nearest(n, d) - n) <= d,
        2 * (n - d * nearest(n, d)) <= d,
        2 * (d * nearest(n, d) - n) == d || 2 * (n - d * nearest(n, d)) == d ==> nearest(n, d) % 2
            == 0,
{
    let q = n / d;
    let r = n % d;
    vstd::arithmetic::div_mod::lemma_fundamental_div_mod(n as int, d as int);
    assert(n == d * q + r);
    assert(0 <= r < d);
    assert(d * (q + 1) == d * q + d) by (nonlinear_arith);
}

/// A number below `2^53` stays as it is.
pub proof fn law_small_numbers_are_exact(n: nat)
    requires
        n < 0x20_0000_0000_0000,
    ensures
        rounded(n) == n,
{
    vstd::arithmetic::power2::lemma2_to64();
    assert(excess_digits(n) == 0);
    assert(pow2(0) == 1);
    assert(n / 1 == n && n % 1 == 0);
    assert(nearest(n, 1) == n);
}

proof fn lemma_digits_left(n: nat)
    ensures
        pow2(excess_digits(n)) > 0,
        n < 0x20_0000_0000_0000 * pow2(excess_digits(n)),
        excess_digits(n) > 0 ==> 0x10_0000_0000_0000 * pow2(excess_digits(n)) <= n,
    decreases n,
{
    if n < 0x20_0000_0000_0000 {
        vstd::arithmetic::power2::lemma2_to64();
    } else {
        let k = excess_digits(n / 2);
        lemma_digits_left(n / 2);
        vstd::arithmetic::power2::lemma_pow2_unfold(k + 1);
        if k == 0 {
            vstd::arithmetic::power2::lemma2_to64();
        }
    }
}

/// A greater number keeps 53 binary digits: it becomes the nearest multiple of a power of two.
pub proof fn law_rounding_keeps_53_digits(n: nat)
    ensures
        ({
            let unit = pow2(excess_digits(n));
            &&& n < 0x20_0000_0000_0000 * unit
            &&& unit > 1 ==> 0x10_0000_0000_0000 * unit <= n
            &&& rounded(n) == unit * nearest(n, unit)
            &&& 2 * (rounded(n) - n) <= unit
            &&& 2 * (n - rounded(n)) <= unit
        }),
{
    lemma_digits_left(n);
    vstd::arithmetic::power2::lemma2_to64();
    let unit = pow2(excess_digits(n));
    law_nearest(n, unit);
    assert(nearest(n, unit) * unit == unit * nearest(n, unit)) by (nonlinear_arith);
}

/// Digits with zeros in front are those of the number, behind the one of a power of ten.
pub proof fn law_padded_digits(n: nat)
    ensures
        n < 100 ==> seq!['1'] + padded(n, 2) == decimal(100 + n),
        n < 1_000_000 ==> seq!['1'] + padded(n, 6) == decimal(1_000_000 + n),
{
    if n < 100 {
        reveal_with_fuel(padded, 3);
        reveal_with_fuel(decimal, 4);
        assert((100 + n) / 10 == 10 + n / 10);
        assert((100 + n) % 10 == n % 10);
        assert((10 + n / 10) / 10 == 1);
        assert((10 + n / 10) % 10 == n / 10);
        assert(decimal(1) =~= seq!['1']);
        assert(seq!['1'] + padded(n, 2) =~= decimal(100 + n));
    }
    if n < 1_000_000 {
        lemma_padded(n, 6, 1_000_000);
    }
}

proof fn lemma_padded(n: nat, digits: nat, power: nat)
    requires
        1 <= digits <= 6,
        n < power,
        digits == 6 ==> power == 1_000_000,
        digits == 5 ==> power == 100_000,
        digits == 4 ==> power == 10_000,
        digits == 3 ==> power == 1_000,
        digits == 2 ==> power == 100,
        digits == 1 ==> power == 10,
    ensures
        seq!['1'] + padded(n, digits) == decimal(power + n),
    decreases digits,
{
    if digits > 1 {
        lemma_padded(n / 10, (digits - 1) as nat, power / 10);
        assert((power + n) / 10 == power / 10 + n / 10);
        assert((power + n) % 10 == n % 10);
        assert(seq!['1'] + padded(n, digits) =~= decimal(power + n));
    } else {
        reveal_with_fuel(padded, 2);
        reveal_with_fuel(decimal, 3);
        assert((10 + n) / 10 == 1);
        assert((10 + n) % 10 == n);
        assert(decimal(1) =~= seq!['1']);
        assert(seq!['1'] + padded(n, 1) =~= decimal(10 + n));
    }
}

/// Hundredths have two digits behind a point, millionths six.
pub proof fn law_points(whole: nat, part: nat)
    ensures
        part < 100 ==> hundredths(100 * whole + part) == decimal(whole).push('.') + padded(part, 2),
        part < 1_000_000 ==> millionths(1_000_000 * whole + part) == decimal(whole).push('.')
            + padded(part, 6),
{
    reveal_strlit(".");
    assert("."@ =~= seq!['.']);
    if part < 100 {
        assert(hundredths(100 * whole + part) =~= decimal(whole).push('.') + padded(part, 2));
    }
    if part < 1_000_000 {
        assert(millionths(1_000_000 * whole + part) =~= decimal(whole).push('.') + padded(part, 6));
    }
}

/// Whether `h` hundredths are as near as can be to a number of bytes in units of `unit`.
pub open spec fn nearest_hundredths(bytes: nat, unit: nat, h: nat) -> bool {
    2 * (unit * h - 100 * bytes) <= unit && 2 * (100 * bytes - unit * h) <= unit
}

/// A size is shown in bytes below 1024, and from there on in units of 1024, 1024² and 1024³, to the
/// nearest hundredth.
pub proof fn law_sizes_for_people(bytes: nat)
    requires
        bytes < 0x20_0000_0000_0000,
    ensures
        bytes < 1024 ==> size_text(bytes) == decimal(bytes) + " B"@,
        1024 <= bytes < 1024 * 1024 ==> exists|h: nat| #[trigger]
            nearest_hundredths(bytes, 1024, h) && size_text(bytes) == hundredths(h) + " KB"@,
        1024 * 1024 <= bytes < 1024 * 1024 * 1024 ==> exists|h: nat| #[trigger]
            nearest_hundredths(bytes, 1024 * 1024, h) && size_text(bytes) == hundredths(h) + " MB"@,
        1024 * 1024 * 1024 <= bytes ==> exists|h: nat| #[trigger]
            nearest_hundredths(bytes, 1024 * 1024 * 1024, h) && size_text(bytes) == hundredths(h)
                + " GB"@,
{
    law_small_numbers_are_exact(bytes);
    law_nearest(100 * bytes, 1024);
    law_nearest(100 * bytes, 1024 * 1024);
    law_nearest(100 * bytes, 1024 * 1024 * 1024);
    assert(nearest_hundredths(bytes, 1024, nearest(100 * bytes, 1024)));
    assert(nearest_hundredths(bytes, 1024 * 1024, nearest(100 * bytes, 1024 * 1024)));
    assert(nearest_hundredths(bytes, 1024 * 1024 * 1024, nearest(100 * bytes, 1024 * 1024 * 1024)));
}

/// A speed is a size per second.
pub proof fn law_speeds_for_people(bytes: nat)
    ensures
        speed_text(bytes) == size_text(bytes) + "/s"@,
{
}

// ---- what peers are paid ----

/// A million smallest units make a coin. A coin is earned for each gibibyte uploaded, and half of one
/// is owed for each gibibyte downloaded, rounded down to smallest units; nothing is owed outside the
/// scheme. Up to eight gibibytes this is exact.
pub proof fn law_prices(a: Account)
    ensures
        COIN == 1_000_000,
        a.bytes_uploaded <= 0x2_0000_0000 ==> 0x4000_0000 * earned(a) <= 1_000_000 * a.bytes_uploaded
            < 0x4000_0000 * (earned(a) + 1),
        a.incentive_enabled && a.bytes_downloaded <= 0x2_0000_0000 ==> 0x8000_0000 * owed(a)
            <= 1_000_000 * a.bytes_downloaded < 0x8000_0000 * (owed(a) + 1),
        !a.incentive_enabled ==> owed(a) == 0,
{
    if a.bytes_uploaded <= 0x2_0000_0000 {
        law_small_numbers_are_exact(a.bytes_uploaded as nat);
        law_small_numbers_are_exact(a.bytes_uploaded as nat * 1_000_000);
    }
    if a.bytes_downloaded <= 0x2_0000_0000 {
        law_small_numbers_are_exact(a.bytes_downloaded as nat);
        law_small_numbers_are_exact(a.bytes_downloaded as nat * 1_000_000);
    }
}

/// More bytes than that are first rounded to 53 binary digits, as the product is.
pub proof fn law_prices_of_many_bytes(a: Account)
    ensures
        0x4000_0000 * earned(a) <= rounded(rounded(a.bytes_uploaded as nat) * 1_000_000) < 0x4000_0000
            * (earned(a) + 1),
        a.incentive_enabled ==> 0x8000_0000 * owed(a) <= rounded(
            rounded(a.bytes_downloaded as nat) * 1_000_000,
        ) < 0x8000_0000 * (owed(a) + 1),
{
}

/// An account is settled after five minutes or ten mebibytes, whichever comes first.
pub proof fn law_when_accounts_are_settled(a: Account, now: u64)
    ensures
        settlement_due(a, now) <==> now - a.last_settlement >= 5 * 60 || a.bytes_uploaded
            + a.bytes_downloaded >= 10 * 1024 * 1024,
{
}

/// A settlement moves what was earned and owed to the totals, which stop at the largest number, and
/// begins to count anew.
pub proof fn law_settlement(a: Account, now: u64)
    ensures
        ({
            let s = settled(a, now);
            &&& s.bytes_uploaded == 0 && s.bytes_downloaded == 0
            &&& s.last_settlement == now
            &&& a.total_earned_satoshis + earned(a) <= u64::MAX ==> s.total_earned_satoshis
                == a.total_earned_satoshis + earned(a)
            &&& a.total_earned_satoshis + earned(a) > u64::MAX ==> s.total_earned_satoshis == u64::MAX
            &&& a.total_paid_satoshis + owed(a) <= u64::MAX ==> s.total_paid_satoshis
                == a.total_paid_satoshis + owed(a)
            &&& a.total_paid_satoshis + owed(a) > u64::MAX ==> s.total_paid_satoshis == u64::MAX
            &&& s.peer_address == a.peer_address
            &&& s.incentive_enabled == a.incentive_enabled
            &&& s.last_active == a.last_active
        }),
{
}

/// A new account takes part and has nothing on it.
pub proof fn law_new_accounts(address: Seq<char>)
    ensures
        ({
            let a = fresh_account(address);
            &&& a.peer_address == address
            &&& a.incentive_enabled
            &&& a.bytes_uploaded == 0 && a.bytes_downloaded == 0
            &&& a.total_earned_satoshis == 0 && a.total_paid_satoshis == 0
            &&& a.last_settlement == 0 && a.last_active == 0
        }),
{
}

/// A count is the number that it counts, or the largest where that does not fit.
pub proof fn law_counts_stop(n: nat)
    ensures
        n <= 0xffff_ffff_ffff_ffff ==> clipped(n) == n,
        n > 0xffff_ffff_ffff_ffff ==> clipped(n) == 0xffff_ffff_ffff_ffff,
{
}

/// Bytes that are noted on an account add to those that it holds, each in its direction, and date
/// it.
pub proof fn law_noted_bytes(a: Account, down: u64, up: u64, now: u64)
    ensures
        ({
            let b = noted(a, down, up, now);
            &&& a.bytes_downloaded + down <= u64::MAX ==> b.bytes_downloaded == a.bytes_downloaded
                + down
            &&& a.bytes_uploaded + up <= u64::MAX ==> b.bytes_uploaded == a.bytes_uploaded + up
            &&& b.last_active == now
            &&& b.peer_address == a.peer_address
            &&& b.incentive_enabled == a.incentive_enabled
            &&& b.total_earned_satoshis == a.total_earned_satoshis
            &&& b.total_paid_satoshis == a.total_paid_satoshis
            &&& b.last_settlement == a.last_settlement
        }),
{
}

/// Up to ten thousand accounts all are kept. Beyond that those without bytes go, and where more than
/// ten thousand are still left, all but the 7,500 that were active last.
pub proof fn law_accounts_that_are_kept(before: Seq<Account>, after: Seq<Account>, a: Account)
    requires
        evicted(before, after),
    ensures
        before.len() <= 10_000 ==> after == before,
        before.len() > 10_000 && active_accounts(before).len() <= 10_000 ==> (after.contains(a)
            <==> before.contains(a) && (a.bytes_uploaded > 0 || a.bytes_downloaded > 0)),
        before.len() > 10_000 && active_accounts(before).len() > 10_000 ==> after.len() == 7_500,
        before.len() > 10_000 && active_accounts(before).len() > 10_000 && after.contains(a)
            ==> before.contains(a) && (a.bytes_uploaded > 0 || a.bytes_downloaded > 0),
        before.len() > 10_000 && active_accounts(before).len() > 10_000 && before.contains(a) && (
        a.bytes_uploaded > 0 || a.bytes_downloaded > 0) && !after.contains(a) ==> forall|k: int|
            0 <= k < after.len() ==> a.last_active <= (#[trigger] after[k]).last_active,
{
    let keep = |x: Account| active(x);
    let kept = active_accounts(before);
    assert(kept == before.filter(keep));
    if kept.contains(a) {
        let i = choose|i: int| 0 <= i < kept.len() && kept[i] == a;
        before.lemma_filter_pred(keep, i);
        before.lemma_filter_contains_rev(keep, kept[i]);
    }
    if before.contains(a) && active(a) {
        let i = choose|i: int| 0 <= i < before.len() && before[i] == a;
        before.lemma_filter_contains(keep, i);
        let j = choose|j: int| 0 <= j < kept.len() && kept[j] == a;
        assert(kept[j] == a);
    }
    if after.contains(a) && before.len() > 10_000 && kept.len() > 10_000 {
        let i = choose|i: int| 0 <= i < after.len() && after[i] == a;
        assert(kept.contains(after[i]));
    }
}

/// The names of the states of a session.
pub proof fn law_names_of_states()
    ensures
        state_name(SessionState::Queued) == "Queued"@,
        state_name(SessionState::Connecting) == "Connecting"@,
        state_name(SessionState::Downloading) == "Downloading"@,
        state_name(SessionState::Seeding) == "Seeding"@,
        state_name(SessionState::Paused) == "Paused"@,
        state_name(SessionState::Error) == "Error"@,
        state_name(SessionState::Stopped) == "Stopped"@,
{
}

/// A new session waits, has exchanged nothing and knows no peers.
pub proof fn law_new_sessions(id: Seq<char>, m: Meta, wallet: Seq<char>, now: u64)
    ensures
        ({
            let s = fresh_session(id, m, wallet, now);
            &&& s.id == id && s.metainfo == m && s.wallet_address == wallet
            &&& s.state == SessionState::Queued
            &&& s.bytes_downloaded == 0 && s.bytes_uploaded == 0
            &&& s.download_speed == 0 && s.upload_speed == 0
            &&& s.peers.len() == 0 && s.incentive_accounts.len() == 0
            &&& s.error is None
            &&& s.created_at == now && s.last_active == now
        }),
{
}

// ---- which pieces are there ----

/// The bits of a byte are counted from the most significant.
pub proof fn law_bits_are_counted_from_the_top(b: u8, k: u8)
    requires
        k < 8,
    ensures
        bit_set(b, k as int) <==> b & (0x80u8 >> k) != 0,
{
    assert(0x80u8 >> 0u8 == 128u8 && 0x80u8 >> 1u8 == 64u8 && 0x80u8 >> 2u8 == 32u8 && 0x80u8 >> 3u8
        == 16u8 && 0x80u8 >> 4u8 == 8u8 && 0x80u8 >> 5u8 == 4u8 && 0x80u8 >> 6u8 == 2u8 && 0x80u8
        >> 7u8 == 1u8) by (bit_vector);
    let w: u8 = 0x80u8 >> k;
    assert(w == bit_weight(k as int));
    assert((b / w) % 2 == 1 <==> b & w != 0) by (bit_vector)
        requires
            w == 1 || w == 2 || w == 4 || w == 8 || w == 16 || w == 32 || w == 64 || w == 128,
    ;
}

/// A bitfield has a bit for each piece and no byte more than that takes.
pub proof fn law_bitfields_are_short(have: Seq<bool>)
    ensures
        8 * bitfield(have).len() >= have.len(),
        8 * bitfield(have).len() < have.len() + 8,
{
}

/// The piece `i` is told by the bit `i % 8` of the byte `i / 8`; pieces beyond the bitfield are not
/// there.
pub proof fn law_bits_tell_pieces(bytes: Seq<u8>, n: nat, i: int)
    requires
        0 <= i < n,
    ensures
        bits_of(bytes, n).len() == n,
        i < 8 * bytes.len() ==> bits_of(bytes, n)[i] == bit_set(bytes[i / 8], i % 8),
        i >= 8 * bytes.len() ==> !bits_of(bytes, n)[i],
{
}

/// One more peer counts for exactly the pieces that it has.
pub proof fn law_peers_are_counted(p: Pieces, e: (Seq<u8>, Seq<bool>), index: int)
    requires
        0 <= index < e.1.len(),
    ensures
        availability(Pieces { peers: Seq::empty(), ..p }, index) == 0,
        availability(Pieces { peers: p.peers.push(e), ..p }, index) == availability(p, index) + (
        if e.1[index] {
            1nat
        } else {
            0nat
        }),
{
    reveal(Seq::filter);
    assert(p.peers.push(e).drop_last() =~= p.peers);
    assert(holds(e, index) == e.1[index]);
}

/// The piece that is fetched next is missing, not asked for and to be had. No other such piece is
/// rarer, and none before it is as rare. Where none is fetched there is none.
pub proof fn law_rarest_piece_first(p: Pieces, r: Option<u32>, j: int)
    requires
        is_rarest(p, r),
        0 <= j < p.have.len(),
        !p.have[j],
        !p.requested[j],
    ensures
        r is None ==> availability(p, j) == 0,
        r matches Some(i) ==> {
            &&& i < p.have.len()
            &&& !p.have[i as int] && !p.requested[i as int]
            &&& availability(p, i as int) > 0
            &&& availability(p, j) > 0 ==> availability(p, i as int) <= availability(p, j)
            &&& availability(p, j) > 0 && j < i ==> availability(p, i as int) < availability(p, j)
        },
{
    assert(crate::torrent::scheduler::wanted(p, j) == (availability(p, j) > 0));
}

/// A piece that came is there and no longer asked for; asking changes what is asked for alone. No
/// other piece is touched, and what is known of peers stays.
pub proof fn law_marks_touch_one_piece(p: Pieces, index: int, yes: bool, k: int)
    requires
        p.requested.len() == p.have.len(),
        0 <= index < p.have.len(),
        0 <= k < p.have.len(),
    ensures
        marked(p, index).have[k] == (k == index || p.have[k]),
        marked(p, index).requested[k] == (k != index && p.requested[k]),
        marked(p, index).peers == p.peers,
        asked(p, index, yes).requested[k] == (if k == index {
            yes
        } else {
            p.requested[k]
        }),
        asked(p, index, yes).have == p.have,
        asked(p, index, yes).peers == p.peers,
{
}

/// Pieces that are found on disk are there besides those that were; none is lost.
pub proof fn law_found_pieces_are_added(p: Pieces, bytes: Seq<u8>, k: int)
    requires
        0 <= k < p.have.len(),
    ensures
        loaded(p, bytes).have.len() == p.have.len(),
        p.have[k] ==> loaded(p, bytes).have[k],
        k < 8 * bytes.len() && bit_set(bytes[k / 8], k % 8) ==> loaded(p, bytes).have[k],
        loaded(p, bytes).have[k] ==> p.have[k] || (k < 8 * bytes.len() && bit_set(
            bytes[k / 8],
            k % 8,
        )),
        loaded(p, bytes).requested == p.requested,
        loaded(p, bytes).peers == p.peers,
{
}

/// One more piece is missing exactly if it is not there.
pub proof fn law_missing_pieces_are_counted(p: Pieces, there: bool)
    ensures
        missing(Pieces { have: Seq::empty(), ..p }) == 0,
        missing(Pieces { have: p.have.push(there), ..p }) == missing(p) + (if there {
            0nat
        } else {
            1nat
        }),
{
    reveal(Seq::filter);
    assert(p.have.push(there).drop_last() =~= p.have);
}

// ---- in which blocks pieces are fetched ----

/// Blocks have 16 KiB, the last of a piece what is left; ten are asked for at a time. Each begins
/// where the one before it ends, and the last ends with the piece.
pub proof fn law_blocks_cover_the_piece(size: int, piece: u32, begin: u32)
    requires
        begin < size <= u32::MAX,
    ensures
        BLOCK_SIZE == 16 * 1024,
        PIPELINED_BLOCKS == 10,
        1 <= block_length(size, begin as int) <= 16 * 1024,
        begin + block_length(size, begin as int) <= size,
        block_length(size, begin as int) < 16 * 1024 ==> begin + block_length(size, begin as int)
            == size,
        begin + block_length(size, begin as int) == size ==> next_begin(size, piece, begin) is None,
        begin + block_length(size, begin as int) < size ==> next_begin(size, piece, begin) == Some(
            (piece, (begin + block_length(size, begin as int)) as u32),
        ),
{
}

/// A piece that was begun is asked for to its end before another is begun. A piece that is begun is
/// asked for from its start, and noted as asked for.
pub proof fn law_pieces_are_finished_first(
    before: Schedule,
    after: Schedule,
    m: Meta,
    pick: Option<u32>,
    r: Option<(u32, u32, u32)>,
)
    requires
        block_chosen(before, after, m, pick, r),
    ensures
        before.current matches Some((piece, begin)) ==> begin < piece_size(m, piece as int)
            ==> (r matches Some(b) && b.0 == piece && b.1 == begin) && after.pieces == before.pieces,
        !piece_goes_on(before, m) && pick is None ==> r is None && after == before,
        !piece_goes_on(before, m) ==> (pick matches Some(i) ==> piece_size(m, i as int) > 0 ==> ((
        r matches Some(b) && b.0 == i && b.1 == 0) && (i < before.pieces.requested.len()
            ==> after.pieces.requested[i as int]) && after.pieces.have == before.pieces.have)),
        after.depth == before.depth,
{
}

/// The pieces of a torrent have its piece length, up to the last, which ends with the torrent.
pub proof fn law_sizes_of_pieces(m: Meta, index: int)
    requires
        0 <= index,
    ensures
        (index + 1) * m.piece_length <= m.total_size ==> piece_size(m, index) == m.piece_length,
        index * m.piece_length <= m.total_size <= (index + 1) * m.piece_length ==> index
            * m.piece_length + piece_size(m, index) == m.total_size,
        m.total_size <= index * m.piece_length ==> piece_size(m, index) == 0,
{
    assert((index + 1) * m.piece_length == index * m.piece_length + m.piece_length)
        by (nonlinear_arith);
}

proof fn lemma_segment_places(lens: Seq<u64>, start: int, end: int, n: nat)
    requires
        n <= lens.len(),
    ensures
        forall|k: int|
            0 <= k < segments(lens, start, end, n).len() ==> ({
                let g = #[trigger] segments(lens, start, end, n)[k];
                0 <= g.file < n && file_start(lens, g.file as nat) + g.offset == start + g.from
            }),
    decreases n,
{
    if n > 0 {
        lemma_segment_places(lens, start, end, (n - 1) as nat);
        let now = segments(lens, start, end, n);
        let before = segments(lens, start, end, (n - 1) as nat);
        assert forall|k: int| 0 <= k < now.len() implies ({
            let g = #[trigger] now[k];
            0 <= g.file < n && file_start(lens, g.file as nat) + g.offset == start + g.from
        }) by {
            if k < before.len() {
                assert(now[k] == before[k]);
            }
        }
    }
}

/// Each part of a piece lies in its file where the piece lies in the torrent, whose files stand one
/// after the other.
pub proof fn law_parts_lie_where_the_piece_lies(
    lens: Seq<u64>,
    piece_length: u64,
    index: u32,
    len: int,
    k: int,
)
    requires
        0 <= k < piece_parts(lens, piece_length, index, len).len(),
    ensures
        ({
            let g = piece_parts(lens, piece_length, index, len)[k];
            file_start(lens, g.file as nat) + g.offset == index * piece_length + g.from
        }),
{
    let start = index * piece_length;
    lemma_segment_places(lens, start, start + len, lens.len());
}

/// The first file begins at the start, and each begins where the one before it ends.
pub proof fn law_files_follow_one_another(lens: Seq<u64>, i: nat)
    requires
        i < lens.len(),
    ensures
        file_start(lens, 0) == 0,
        file_start(lens, i + 1) == file_start(lens, i) + lens[i as int],
{
}

/// A block adds its bytes at its offset, once: a second one at the same offset changes nothing.
pub proof fn law_blocks_are_taken_once(
    a: Assembly,
    begin: u32,
    data: Seq<u8>,
    again: Seq<u8>,
    other: u32,
)
    ensures
        !a.blocks.dom().contains(begin) ==> with_block(a, begin, data).blocks.get(begin) == Some(data),
        !a.blocks.dom().contains(begin) && a.received + data.len() <= u64::MAX ==> with_block(
            a,
            begin,
            data,
        ).received == a.received + data.len(),
        a.blocks.dom().contains(begin) ==> with_block(a, begin, data) == a,
        with_block(with_block(a, begin, data), begin, again) == with_block(a, begin, data),
        other != begin ==> with_block(a, begin, data).blocks.get(other) == a.blocks.get(other),
        with_block(a, begin, data).expected == a.expected,
{
}

/// A piece of which nothing came is not there unless it is empty; one is there once as many bytes
/// came as it has.
pub proof fn law_when_a_piece_is_there(expected: u64, a: Assembly)
    ensures
        no_blocks(expected).received == 0,
        no_blocks(expected).blocks.dom() == Set::<u32>::empty(),
        no_blocks(expected).expected == expected,
        all_received(no_blocks(expected)) <==> expected == 0,
        a.received < a.expected ==> !all_received(a),
        a.received >= a.expected ==> all_received(a),
{
}

/// A part of a path is safe exactly if it is not empty, not one of the two that mean other
/// directories, and has neither a separator nor a colon.
pub proof fn law_safe_parts(s: Seq<char>)
    ensures
        is_safe_part(s) <==> s.len() > 0 && s != "."@ && s != ".."@ && forall|i: int|
            0 <= i < s.len() ==> #[trigger] s[i] != '/' && s[i] != '\\' && s[i] != ':',
{
    if !is_safe_part(s) && s.len() > 0 && s != "."@ && s != ".."@ {
        if s.contains('/') {
            let i = choose|i: int| 0 <= i < s.len() && s[i] == '/';
            assert(s[i] == '/');
        } else if s.contains('\\') {
            let i = choose|i: int| 0 <= i < s.len() && s[i] == '\\';
            assert(s[i] == '\\');
        } else {
            let i = choose|i: int| 0 <= i < s.len() && s[i] == ':';
            assert(s[i] == ':');
        }
    }
    if is_safe_part(s) {
        assert forall|i: int| 0 <= i < s.len() implies #[trigger] s[i] != '/' && s[i] != '\\' && s[i]
            != ':' by {
            assert(s.contains(s[i]));
        }
    }
}

/// A path leads from its base along its parts, and is refused where one of them is not safe. Files
/// lie in a directory with the name of the torrent.
pub proof fn law_paths_stay_inside(base: Seq<Seq<char>>, parts: Seq<Seq<char>>, m: Meta, file: int)
    ensures
        safe_path(base, parts) matches Some(p) ==> p.len() == base.len() + parts.len() && p.take(
            base.len() as int,
        ) == base && p.skip(base.len() as int) == parts,
        safe_path(base, parts) is Some <==> forall|i: int|
            0 <= i < parts.len() ==> is_safe_part(#[trigger] parts[i]),
        path_of(m, file) matches Some(p) ==> p.len() > 0 && p[0] == m.name && p.skip(1)
            == m.files[file].path,
{
    if let Some(p) = safe_path(base, parts) {
        assert(p.take(base.len() as int) =~= base);
        assert(p.skip(base.len() as int) =~= parts);
    }
    if let Some(p) = path_of(m, file) {
        assert(p.skip(1) =~= m.files[file].path);
    }
}

// ---- messages between peers ----

/// The number of the type of a message.
pub open spec fn type_number(m: Message) -> Option<u8> {
    match m {
        Message::Handshake { .. } => None,
        Message::KeepAlive => None,
        Message::Choke => Some(0),
        Message::Unchoke => Some(1),
        Message::Interested => Some(2),
        Message::NotInterested => Some(3),
        Message::Have { .. } => Some(4),
        Message::Bitfield { .. } => Some(5),
        Message::Request { .. } => Some(6),
        Message::Piece { .. } => Some(7),
        Message::Cancel { .. } => Some(8),
        Message::Port { .. } => Some(9),
        Message::Extended { .. } => Some(20),
    }
}

/// A message starts with the length of what follows, in four bytes, the highest first. Then comes the
/// number of its type.
pub proof fn law_message_layout(m: Message)
    requires
        m !is Handshake,
        body_of(m).len() <= 0xffff_ffff,
    ensures
        message_bytes(m).len() == 4 + body_of(m).len(),
        be_value(message_bytes(m).subrange(0, 4)) == message_bytes(m).len() - 4,
        m is KeepAlive <==> message_bytes(m).len() == 4,
        type_number(m) matches Some(n) ==> message_bytes(m)[4] == n,
{
    lemma_pow256_values();
    lemma_be_roundtrip(body_of(m).len(), 4);
    assert(message_bytes(m).subrange(0, 4) =~= crate::bytes::be_digits(body_of(m).len(), 4));
}

proof fn lemma_number_place(b: Seq<u8>, at: int, x: nat)
    requires
        0 <= at,
        at + 4 <= b.len(),
        b.subrange(at, at + 4) == crate::bytes::be_digits(x, 4),
        x <= 0xffff_ffff,
    ensures
        be_value(b.subrange(at, at + 4)) == x,
{
    lemma_pow256_values();
    lemma_be_roundtrip(x, 4);
}

/// The numbers of a message stand in its body in four bytes each, in the order index, begin, length;
/// the bytes of a block, a bitfield or an extension stand last.
pub proof fn law_places_in_messages(index: u32, begin: u32, length: u32, data: Seq<u8>, port: u16, id: u8)
    ensures
        ({
            let b = body_of(Message::Have { index });
            b.len() == 5 && be_value(b.subrange(1, 5)) == index
        }),
        ({
            let b = body_of(Message::Request { index, begin, length });
            b.len() == 13 && be_value(b.subrange(1, 5)) == index && be_value(b.subrange(5, 9)) == begin
                && be_value(b.subrange(9, 13)) == length
        }),
        ({
            let b = body_of(Message::Cancel { index, begin, length });
            b.len() == 13 && be_value(b.subrange(1, 5)) == index && be_value(b.subrange(5, 9)) == begin
                && be_value(b.subrange(9, 13)) == length
        }),
        ({
            let b = body_of(Message::Piece { index, begin, data });
            b.len() == 9 + data.len() && be_value(b.subrange(1, 5)) == index && be_value(
                b.subrange(5, 9),
            ) == begin && b.skip(9) == data
        }),
        body_of(Message::Bitfield { bits: data }).skip(1) == data,
        ({
            let b = body_of(Message::Port { port });
            b.len() == 3 && be_value(b.subrange(1, 3)) == port
        }),
        ({
            let b = body_of(Message::Extended { id, payload: data });
            b[1] == id && b.skip(2) == data
        }),
{
    lemma_pow256_values();
    lemma_be_roundtrip(index as nat, 4);
    lemma_be_roundtrip(begin as nat, 4);
    lemma_be_roundtrip(length as nat, 4);
    lemma_be_roundtrip(port as nat, 2);
    let di = crate::bytes::be_digits(index as nat, 4);
    let db = crate::bytes::be_digits(begin as nat, 4);
    let dl = crate::bytes::be_digits(length as nat, 4);
    let have = body_of(Message::Have { index });
    assert(have.subrange(1, 5) =~= di);
    let request = body_of(Message::Request { index, begin, length });
    assert(request.subrange(1, 5) =~= di);
    assert(request.subrange(5, 9) =~= db);
    assert(request.subrange(9, 13) =~= dl);
    let cancel = body_of(Message::Cancel { index, begin, length });
    assert(cancel.subrange(1, 5) =~= di);
    assert(cancel.subrange(5, 9) =~= db);
    assert(cancel.subrange(9, 13) =~= dl);
    let piece = body_of(Message::Piece { index, begin, data });
    assert(piece.subrange(1, 5) =~= di);
    assert(piece.subrange(5, 9) =~= db);
    assert(piece.skip(9) =~= data);
    assert(body_of(Message::Bitfield { bits: data }).skip(1) =~= data);
    assert(body_of(Message::Port { port }).subrange(1, 3) =~= crate::bytes::be_digits(
        port as nat,
        2,
    ));
    assert(body_of(Message::Extended { id, payload: data }).skip(2) =~= data);
}

/// A handshake is the name of the protocol behind its length, eight bytes of extensions, the digest
/// of the torrent and the name of the client.
pub proof fn law_handshake_layout(info_hash: Seq<u8>, peer_id: Seq<u8>, reserved: Seq<u8>)
    requires
        info_hash.len() == 20,
        peer_id.len() == 20,
        reserved.len() == 8,
    ensures
        ({
            let b = message_bytes(Message::Handshake { info_hash, peer_id, reserved });
            &&& b.len() == 68 && HANDSHAKE_LENGTH == 68
            &&& b[0] == 19
            &&& forall|i: int| 0 <= i < 19 ==> #[trigger] b[i + 1] == "BitTorrent protocol"@[i] as u8
            &&& b.subrange(20, 28) == reserved
            &&& b.subrange(28, 48) == info_hash
            &&& b.subrange(48, 68) == peer_id
        }),
{
    reveal_strlit("BitTorrent protocol");
    let b = message_bytes(Message::Handshake { info_hash, peer_id, reserved });
    assert(protocol_name().len() == 20);
    assert(b.subrange(20, 28) =~= reserved);
    assert(b.subrange(28, 48) =~= info_hash);
    assert(b.subrange(48, 68) =~= peer_id);
    assert forall|i: int| 0 <= i < 19 implies #[trigger] b[i + 1] == "BitTorrent protocol"@[i] as u8 by {
        assert(b[i + 1] == protocol_name()[i + 1]);
    }
}

/// Nothing is read before a message is there in full. One above sixteen mebibytes is refused, as is
/// a greeting of another protocol.
pub proof fn law_what_is_not_read(buf: Seq<u8>)
    ensures
        MAX_MESSAGE_LENGTH == 16 * 1024 * 1024,
        buf.len() < 4 ==> first_message(buf) is Ok && first_message(buf)->Ok_0 is None,
        buf.len() >= 4 && be_value(buf.subrange(0, 4)) > 16 * 1024 * 1024 ==> first_message(buf) is Err,
        buf.len() >= 4 && 0 < be_value(buf.subrange(0, 4)) <= 16 * 1024 * 1024 && buf.len() - 4
            < be_value(buf.subrange(0, 4)) ==> first_message(buf) is Ok && first_message(buf)->Ok_0 is None,
        buf.len() < 68 ==> first_handshake(buf) is Ok && first_handshake(buf)->Ok_0 is None,
        buf.len() >= 68 && buf.subrange(0, 20) != protocol_name() ==> first_handshake(buf) is Err,
        buf.len() >= 68 && first_handshake(buf) is Ok ==> buf.subrange(0, 20) == protocol_name()
            && first_handshake(buf)->Ok_0 is Some,
{
}

/// A message that takes more bytes than came is refused; one of a type that is not known is passed
/// over.
pub proof fn law_short_messages(body: Seq<u8>)
    requires
        body.len() > 0,
    ensures
        body[0] == 4 ==> (message_in(body) is Err <==> body.len() < 5),
        body[0] == 6 ==> (message_in(body) is Err <==> body.len() < 13),
        body[0] == 7 ==> (message_in(body) is Err <==> body.len() < 9),
        body[0] == 8 ==> (message_in(body) is Err <==> body.len() < 13),
        body[0] == 9 ==> (message_in(body) is Err <==> body.len() < 3),
        body[0] == 20 ==> (message_in(body) is Err <==> body.len() < 2),
        body[0] <= 3 || body[0] == 5 ==> message_in(body) is Ok && message_in(body)->Ok_0 is Some,
        9 < body[0] && body[0] != 20 ==> message_in(body) is Ok && message_in(body)->Ok_0 is None,
{
}

// ---- what follows from messages ----

/// A block that comes is taken to its piece and is no longer awaited. A piece is no longer kept once
/// all of it came, right or wrong. Other messages leave what is under way alone.
pub proof fn law_blocks_under_way(t: Task, m: Meta, index: u32, begin: u32, data: Seq<u8>, other: u32)
    ensures
        ({
            let a = part_after(t, m, index, begin, data);
            let after = task_after(t, m, Message::Piece { index, begin, data });
            &&& t.in_flight > 0 ==> after.in_flight + 1 == t.in_flight
            &&& t.in_flight == 0 ==> after.in_flight == 0
            &&& a.received >= a.expected ==> after.parts.get(index) is None
            &&& a.received < a.expected ==> after.parts.get(index) == Some(a)
            &&& other != index ==> after.parts.get(other) == t.parts.get(other)
            &&& after.remote == t.remote
            &&& t.parts.get(index) is None ==> 0 <= piece_size(m, index as int) <= u64::MAX
                ==> a.expected == piece_size(m, index as int)
            &&& t.parts.get(index) is None ==> a.blocks.get(begin) == Some(data)
            &&& t.parts.get(index) matches Some(old) ==> a == with_block(old, begin, data)
        }),
        task_after(t, m, Message::Choke) == t,
        task_after(t, m, Message::Unchoke) == t,
        task_after(t, m, Message::Have { index }) == t,
        task_after(t, m, Message::Bitfield { bits: data }) == t,
{
}

/// What a peer says of its pieces is noted under its name; no other message is.
pub proof fn law_what_peers_say_of_pieces(p: Pieces, remote: Seq<u8>, msg: Message)
    ensures
        pieces_after(p, remote, msg).have == p.have,
        pieces_after(p, remote, msg).requested == p.requested,
        msg !is Bitfield && msg !is Have ==> pieces_after(p, remote, msg) == p,
        msg matches Message::Bitfield { bits } ==> pieces_after(p, remote, msg)
            == crate::torrent::scheduler::with_bitfield(p, remote, bits),
        msg matches Message::Have { index } ==> pieces_after(p, remote, msg)
            == crate::torrent::scheduler::with_peer_piece(p, remote, index as int),
{
}

/// A piece is stored exactly if its last block came and it has the digest that the torrent gives for
/// it; what is stored is its blocks in their order.
pub proof fn law_when_a_piece_is_stored(t: Task, m: Meta, index: u32, begin: u32, data: Seq<u8>)
    requires
        index < m.pieces.len(),
    ensures
        ({
            let a = part_after(t, m, index, begin, data);
            let whole = crate::torrent::metadata::in_order(a.blocks);
            let step = step_for(t, m, Message::Piece { index, begin, data });
            &&& a.received >= a.expected && crate::crypto::sha1_of(whole) == m.pieces[index as int]
                ==> step == (Step::Store { index, data: whole })
            &&& !(a.received >= a.expected && crate::crypto::sha1_of(whole) == m.pieces[index as int])
                ==> step == Step::Check
        }),
        step_for(t, m, Message::KeepAlive) == Step::Skip,
        step_for(t, m, Message::Choke) == Step::Check,
{
}

// ---- downloads ----

/// A tracker is asked over datagrams exactly if its address says so, and is told that nothing is
/// there yet.
pub proof fn law_how_trackers_are_asked(r: TrackerRequest, url: Seq<char>, m: Meta)
    requires
        asks_tracker(r, url, m),
    ensures
        r is Udp <==> url.len() >= 6 && url.take(6) == "udp://"@,
        r matches TrackerRequest::Udp { address, info_hash, left } ==> address@ == without_udp(
            url.skip(6),
        ) && info_hash@ == m.info_hash && left == m.total_size,
        r matches TrackerRequest::Http(q) ==> q.tracker_url@ == url && q.info_hash@ == m.info_hash
            && q.left == m.total_size && q.uploaded == 0 && q.downloaded == 0 && q.port == 6881
            && q.num_want == 50 && q.event == AnnounceEvent::Started && (forall|i: int|
            0 <= i < 20 ==> #[trigger] q.peer_id@[i] == 0x2d),
{
    reveal_strlit("udp://");
    assert(client_name().len() == 20);
}

/// The protocol in front of an address is taken away, however often it stands there, and nothing
/// else is.
pub proof fn law_protocol_is_taken_away(s: Seq<char>)
    ensures
        without_udp("udp://"@ + s) == without_udp(s),
        !(s.len() >= 6 && s.take(6) == "udp://"@) ==> without_udp(s) == s,
{
    reveal_strlit("udp://");
    let t = "udp://"@ + s;
    assert(t.take(6) =~= "udp://"@);
    assert(t.skip(6) =~= s);
}

/// The address of a peer is its host, a colon and its port.
pub proof fn law_addresses_of_peers(p: Peer)
    ensures
        peer_address(p) == p.ip.push(':') + decimal(p.port as nat),
{
    reveal_strlit(":");
    assert(":"@ =~= seq![':']);
    assert(peer_address(p) =~= p.ip.push(':') + decimal(p.port as nat));
}

/// A download asks its trackers first. Peers that a tracker tells are asked to describe a torrent
/// without pieces, one after the other until one does; with a description pieces are fetched.
pub proof fn law_course_of_a_download(m: Meta, r: Run, peers: Seq<Peer>, found: Meta, at: usize)
    ensures
        run_start(m).metainfo == m,
        run_start(m).peers.len() == 0,
        run_start(m).trackers == trackers_of(m),
        trackers_of(m).len() > 0 ==> run_start(m).phase == (EnginePhase::Announcing { tracker: 0 }),
        trackers_of(m).len() == 0 ==> run_start(m).phase == EnginePhase::Downloading,
        r.phase == (EnginePhase::Announcing { tracker: at }) ==> {
            let next = run_announced(r, Some(peers));
            &&& next.peers == peers
            &&& next.metainfo == r.metainfo
            &&& r.metainfo.pieces.len() == 0 && peers.len() > 0 ==> next.phase == (
            EnginePhase::Searching { peer: 0 })
            &&& r.metainfo.pieces.len() > 0 || peers.len() == 0 ==> next.phase
                == EnginePhase::Downloading
        },
        r.phase == (EnginePhase::Searching { peer: at }) ==> {
            &&& run_fetched(r, Some(found)).metainfo == found
            &&& run_fetched(r, Some(found)).phase == EnginePhase::Downloading
            &&& run_fetched(r, Some(found)).peers == r.peers
            &&& run_fetched(r, None).metainfo == r.metainfo
            &&& run_fetched(r, None).peers == r.peers
            &&& at + 1 < r.peers.len() && at < usize::MAX ==> run_fetched(r, None).phase == (
            EnginePhase::Searching { peer: (at + 1) as usize })
            &&& at + 1 >= r.peers.len() ==> run_fetched(r, None).phase == EnginePhase::Downloading
        },
{
}

/// What is done in each phase: the tracker whose turn it is is asked, or the peer whose turn it is,
/// or all peers.
pub proof fn law_what_is_done_next(r: Run, a: EngineAction)
    requires
        is_next_action(r, a),
    ensures
        r.phase matches EnginePhase::Announcing { tracker } ==> (a matches EngineAction::Announce(q)
            && asks_tracker(q, r.trackers[tracker as int], r.metainfo)),
        r.phase matches EnginePhase::Searching { peer } ==> (a matches EngineAction::FetchMetadata(s)
            && s@ == peer_address(r.peers[peer as int])),
        r.phase == EnginePhase::Downloading ==> (a matches EngineAction::Download { peers, resume_file }
            && peers@.len() == r.peers.len() && (forall|i: int|
            0 <= i < r.peers.len() ==> (#[trigger] peers@[i])@ == peer_address(r.peers[i]))
            && resume_file@ == r.metainfo.name + ".vtorrent"@),
{
    if r.phase == EnginePhase::Downloading {
        if let EngineAction::Download { peers, resume_file } = a {
            let t = crate::torrent::metainfo::texts(peers@);
            assert(t.len() == peers@.len());
            assert forall|i: int| 0 <= i < r.peers.len() implies (#[trigger] peers@[i])@
                == peer_address(r.peers[i]) by {
                assert(t[i] == peers@[i]@);
                assert(crate::torrent::engine::peer_addresses(r.peers)[i] == peer_address(r.peers[i]));
            }
        }
    }
}

/// A download that ended counts the whole pieces that are there, and seeds exactly if they make up
/// the torrent.
pub proof fn law_end_of_a_download(s: Session, have: int, m: Meta, now: u64)
    requires
        0 <= have * m.piece_length <= u64::MAX,
    ensures
        ({
            let e = finished_session(s, have, m, now);
            &&& e.bytes_downloaded == have * m.piece_length
            &&& e.state == SessionState::Seeding <==> have * m.piece_length >= m.total_size
            &&& e.state == SessionState::Downloading <==> have * m.piece_length < m.total_size
            &&& e.last_active == now
            &&& e.id == s.id && e.metainfo == s.metainfo && e.bytes_uploaded == s.bytes_uploaded
            &&& e.incentive_accounts == s.incentive_accounts && e.created_at == s.created_at
            &&& e.peers == s.peers && e.error == s.error && e.wallet_address == s.wallet_address
        }),
{
}

/// Bytes are a piece exactly if they have its size and its digest.
pub proof fn law_what_a_piece_is(m: Meta, index: int, data: Seq<u8>)
    requires
        0 <= index < m.pieces.len(),
    ensures
        is_piece(m, index, data) <==> data.len() == piece_size(m, index) && crate::crypto::sha1_of(data)
            == m.pieces[index],
        !is_piece(m, m.pieces.len() as int, data),
{
}

/// A piece that was stored is there and no longer asked for. One that could not be stored can be
/// asked for again. No other piece changes, nor what is known of the peers.
pub proof fn law_after_storing_a_piece(p: Pieces, index: u32, stored: bool, other: int)
    requires
        p.have.len() == p.requested.len(),
        index < p.have.len(),
        0 <= other < p.have.len(),
        other != index,
    ensures
        ({
            let q = after_storing(p, index, stored);
            &&& q.have.len() == p.have.len() && q.requested.len() == p.requested.len()
            &&& q.have[index as int] == (stored || p.have[index as int])
            &&& !q.requested[index as int]
            &&& q.have[other] == p.have[other]
            &&& q.requested[other] == p.requested[other]
            &&& q.peers == p.peers
        }),
{
}

} // verus!
