//! Placement by access rate. The scores are floating-point numbers, which the
//! caller of the library computes: here the tests do.

use vugva::membrane::Membrane;
use vugva::ranking::Candidate;

const RATE_DECAY: f64 = 0.75;
const VRAM_HIGH_WATER: f64 = 0.85;
const HYSTERESIS: f64 = 1.5;

/// A key that orders as the numbers do.
fn key(score: f64) -> u64 {
    let bits = (score + 0.0).to_bits();
    if bits >> 63 == 1 {
        !bits
    } else {
        bits | 1 << 63
    }
}

struct Obs {
    rate: f64,
    bytes: usize,
    resident: bool,
    pinned: bool,
}

fn obs(rate: f64, mb: usize, resident: bool) -> Obs {
    Obs { rate, bytes: mb << 20, resident, pinned: false }
}

fn score(o: &Obs) -> f64 {
    if o.pinned {
        return f64::INFINITY;
    }
    let mib = o.bytes as f64 / (1024.0 * 1024.0);
    o.rate * if o.resident { HYSTERESIS } else { 1.0 } - 0.05 * mib
}

fn plan(cands: &[(String, Obs)], vram_budget: usize) -> (Vec<String>, Vec<String>) {
    let candidates: Vec<Candidate> = cands
        .iter()
        .map(|(n, o)| Candidate {
            name: n.clone(),
            key: key(score(o)),
            bytes: o.bytes,
            pinned: o.pinned,
        })
        .collect();
    let cap = (vram_budget as f64 * VRAM_HIGH_WATER) as usize;
    Membrane::new().plan(&candidates, cap)
}

fn decay(m: &mut Membrane) {
    let rates = m
        .window()
        .into_iter()
        .map(|s| {
            let h = s.hits as f64;
            let rate = match s.rate {
                Some(bits) => f64::from_bits(bits) * RATE_DECAY + h * (1.0 - RATE_DECAY),
                None => h * (1.0 - RATE_DECAY),
            };
            (s.name, rate.to_bits())
        })
        .collect();
    m.decay(rates);
}

fn rate(m: &Membrane, name: &str) -> f64 {
    m.rate(name).map_or(0.0, f64::from_bits)
}

/// A page that stops being queried must lose its claim on VRAM.
#[test]
fn an_idle_page_decays_below_an_active_one() {
    let mut m = Membrane::new();
    for _ in 0..10 {
        m.observe("startup");
    }
    decay(&mut m);
    let peak = rate(&m, "startup");
    assert!(peak > 0.0);

    // "startup" goes quiet; "steady" is used lightly but continuously.
    for _ in 0..6 {
        m.observe("steady");
        decay(&mut m);
    }
    assert!(
        rate(&m, "startup") < rate(&m, "steady"),
        "an idle page ({:.3}) must fall below a continuously used one ({:.3})",
        rate(&m, "startup"),
        rate(&m, "steady"),
    );
    assert!(rate(&m, "startup") < peak * 0.2, "decay must be substantial");
}

/// The membrane must follow a workload that moves.
#[test]
fn the_membrane_follows_a_shifting_workload() {
    let mut m = Membrane::new();
    for _ in 0..8 {
        for _ in 0..5 {
            m.observe("A");
        }
        decay(&mut m);
    }
    assert!(rate(&m, "A") > rate(&m, "B"));

    // Traffic moves to B entirely.
    for _ in 0..8 {
        for _ in 0..5 {
            m.observe("B");
        }
        decay(&mut m);
    }
    assert!(
        rate(&m, "B") > rate(&m, "A"),
        "membrane must follow the workload: A={:.3} B={:.3}",
        rate(&m, "A"),
        rate(&m, "B")
    );
}

/// Hot pages are kept, cold ones evicted, and the budget is respected.
#[test]
fn plan_keeps_the_hottest_pages_within_budget() {
    let cands = vec![
        ("hot".to_string(), obs(10.0, 100, false)),
        ("warm".to_string(), obs(5.0, 100, false)),
        ("cold".to_string(), obs(0.1, 100, false)),
    ];
    // Of a budget of 250 MB, 212 MB are filled: two 100 MB pages fit.
    let (keep, evict) = plan(&cands, 250 << 20);
    assert_eq!(keep, vec!["hot".to_string(), "warm".to_string()]);
    assert_eq!(evict, vec!["cold".to_string()]);
}

/// A pinned page is never evicted, even past the budget.
#[test]
fn pinned_pages_survive_any_budget() {
    let mut pinned = obs(0.0, 500, false);
    pinned.pinned = true;
    let cands = vec![
        ("pinned".to_string(), pinned),
        ("hot".to_string(), obs(99.0, 100, false)),
    ];
    let (keep, _) = plan(&cands, 64 << 20);
    assert!(
        keep.contains(&"pinned".to_string()),
        "a pinned page must be kept regardless of budget"
    );
}

/// Two pages of nearly equal heat must not trade places.
#[test]
fn hysteresis_prevents_boundary_thrash() {
    // `incumbent` is resident and marginally colder than the challenger.
    let cands = vec![
        ("incumbent".to_string(), obs(1.00, 100, true)),
        ("challenger".to_string(), obs(1.15, 100, false)),
    ];
    let (keep, evict) = plan(&cands, 120 << 20); // room for one
    assert_eq!(
        keep,
        vec!["incumbent".to_string()],
        "a marginally hotter challenger must not displace a resident page"
    );
    assert_eq!(evict, vec!["challenger".to_string()]);

    // A decisively hotter challenger should win.
    let cands = vec![
        ("incumbent".to_string(), obs(1.00, 100, true)),
        ("challenger".to_string(), obs(5.00, 100, false)),
    ];
    let (keep, _) = plan(&cands, 120 << 20);
    assert_eq!(
        keep,
        vec!["challenger".to_string()],
        "hysteresis must not become a permanent incumbency lock"
    );
}

/// Forgetting a deallocated page must actually drop it.
#[test]
fn forget_drops_history() {
    let mut m = Membrane::new();
    m.observe("gone");
    decay(&mut m);
    assert!(rate(&m, "gone") > 0.0);
    m.forget("gone");
    assert_eq!(rate(&m, "gone"), 0.0);
}

/// Plans must not depend on the order in which pages are listed.
#[test]
fn plan_is_deterministic_under_ties() {
    let cands = |names: [&str; 4]| -> Vec<(String, Obs)> {
        names.iter().map(|n| (n.to_string(), obs(1.0, 10, false))).collect()
    };
    let first = plan(&cands(["d", "a", "c", "b"]), 25 << 20);
    for _ in 0..8 {
        assert_eq!(plan(&cands(["d", "a", "c", "b"]), 25 << 20), first);
    }
    assert_eq!(plan(&cands(["a", "b", "c", "d"]), 25 << 20), first);
    assert_eq!(plan(&cands(["c", "d", "b", "a"]), 25 << 20), first);
    assert_eq!(first.0, vec!["a", "b"]);
    assert_eq!(first.1, vec!["c", "d"]);
}

fn candidate(name: &str, key: u64, bytes: usize, pinned: bool) -> Candidate {
    Candidate { name: name.into(), key, bytes, pinned }
}

#[test]
fn a_page_that_does_not_fit_ends_the_filling() {
    let m = Membrane::new();
    let (keep, evict) = m.plan(
        &vec![
            candidate("big", 9, 80, false),
            candidate("huge", 8, 50, false),
            candidate("small", 7, 20, false),
            candidate("none", 6, 0, false),
        ],
        100,
    );
    assert_eq!(keep, vec!["big"]);
    assert_eq!(evict, vec!["huge", "small", "none"]);
    let cands = vec![
        ("big".to_string(), obs(20.0, 100, false)),
        ("small".to_string(), obs(9.0, 1, false)),
    ];
    let (keep, evict) = plan(&cands, 50 << 20);
    assert!(keep.is_empty());
    assert_eq!(evict, vec!["big", "small"]);
}

#[test]
fn a_pinned_page_is_kept_behind_one_that_does_not_fit() {
    let m = Membrane::new();
    let (keep, evict) = m.plan(
        &vec![
            candidate("a", 9, 60, false),
            candidate("b", 8, 50, false),
            candidate("p", 7, 10, true),
            candidate("c", 6, 1, false),
        ],
        100,
    );
    assert_eq!(keep, vec!["a", "p"]);
    assert_eq!(evict, vec!["b", "c"]);
}

#[test]
fn pinned_pages_use_up_the_budget() {
    let m = Membrane::new();
    let (keep, evict) = m.plan(
        &vec![
            candidate("p", 10, usize::MAX, true),
            candidate("q", 9, usize::MAX, true),
            candidate("a", 8, 0, false),
        ],
        usize::MAX,
    );
    assert_eq!(keep, vec!["p", "q"]);
    assert_eq!(evict, vec!["a"]);
}

#[test]
fn names_decide_between_equal_keys_as_strings_do() {
    let m = Membrane::new();
    let names = ["b", "a", "ab", "", "\u{e9}", "z", "\u{1f600}", "Z", "a\u{0}"];
    let mut sorted: Vec<String> = names.iter().map(|n| n.to_string()).collect();
    sorted.sort();
    let (keep, evict) = m.plan(&names.iter().map(|n| candidate(n, 1, 1, false)).collect(), 100);
    assert_eq!(keep, sorted);
    assert!(evict.is_empty());
}

#[test]
fn a_window_has_every_page_once() {
    let mut m = Membrane::default();
    for n in ["a", "b", "a"] {
        m.observe(n);
    }
    decay(&mut m);
    for n in ["b", "c", "c", "c"] {
        m.observe(n);
    }
    let mut window: Vec<(String, bool, u64)> = m
        .window()
        .into_iter()
        .map(|s| (s.name, s.rate.is_some(), s.hits))
        .collect();
    window.sort();
    assert_eq!(
        window,
        vec![("a".into(), true, 0), ("b".into(), true, 1), ("c".into(), false, 3)]
    );
    decay(&mut m);
    assert_eq!(m.sweeps(), 2);
    assert_eq!(rate(&m, "a"), 0.5 * 0.75);
    assert_eq!(rate(&m, "b"), 0.25 * 0.75 + 0.25);
    assert_eq!(rate(&m, "c"), 0.75);
    assert!(m.window().iter().all(|s| s.hits == 0));
}
