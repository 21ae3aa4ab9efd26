use circ_das::block_circulant::BlockCirculant;
use circ_das::das::{is_available, required_samples, sample, verify_opening, MerkleTree, SampleRng};
use circ_das::gf256::Gf256;
use circ_das::grs::min_weight_support;
use circ_das::rs2d::Rs2d;
use std::collections::BTreeSet;

/// Deterministic pseudo-message of `k` nonzero-ish bytes.
fn message(k: usize) -> Vec<u8> {
    (0..k as u32).map(|x| ((x.wrapping_mul(2_654_435_761)) >> 13) as u8 | 1).collect()
}

/// `1 - ((n-w)/n)^s`, the detection probability of a size-`w` withheld set.
fn detection_probability(n: usize, w: usize, s: usize) -> f64 {
    if w == 0 {
        return 0.0;
    }
    if w >= n {
        return 1.0;
    }
    1.0 - ((n - w) as f64 / n as f64).powi(s as i32)
}

/// Deployed global decoder: `Some(recovered)` iff the erased set is recoverable.
type Decoder = Box<dyn Fn(&[u8], &[usize]) -> Option<Vec<u8>>>;

/// One code instance packaged for the shared soundness driver.
struct Instance {
    label: &'static str,
    n: usize,
    d: usize,
    cw: Vec<u8>,
    worst: Vec<usize>,
    recover: Decoder,
}

fn bc_instance(f: &'static Gf256) -> Instance {
    let bc = BlockCirculant::new(f, 6, 2, 2); // n=24, d=2*rho+1=5
    let n = bc.n();
    let d = bc.d_formula();
    let cw = bc.encode(f, &message(bc.k()));
    let worst = min_weight_support(f, &bc.parity_check(f), n);
    Instance {
        label: "block-circulant (mu=6,omega=2,rho=2)",
        n,
        d,
        cw,
        worst,
        recover: Box::new(move |dmg: &[u8], erased: &[usize]| bc.recover(f, dmg, erased)),
    }
}

fn rs2d_instance(f: &'static Gf256) -> Instance {
    let code = Rs2d::new(f, 4, 2, 4, 2); // n=16, d=9
    let n = code.n();
    let d = code.d_formula();
    let msg: Vec<u8> = (0..code.k() as u8).map(|x| x.wrapping_mul(5).wrapping_add(1)).collect();
    let cw = code.encode(f, &msg);
    let worst = min_weight_support(f, &code.parity_check(), n);
    Instance {
        label: "2D-RS (4,2)x(4,2)",
        n,
        d,
        cw,
        worst,
        recover: Box::new(move |dmg: &[u8], erased: &[usize]| code.recover(f, dmg, erased)),
    }
}

/// Damage a codeword by zeroing the withheld positions.
fn withhold(cw: &[u8], set: &[usize]) -> Vec<u8> {
    let mut dmg = cw.to_vec();
    for &e in set {
        dmg[e] = 0x00;
    }
    dmg
}

fn assert_threshold(inst: &Instance) {
    assert_eq!(inst.worst.len(), inst.d, "{}: worst set must have size d", inst.label);
    let dmg_d = withhold(&inst.cw, &inst.worst);
    assert!(
        (inst.recover)(&dmg_d, &inst.worst).is_none(),
        "{}: size-d min-weight support MUST be unrecoverable (else soundness is a lie)",
        inst.label
    );
    assert!(
        !is_available(inst.n, inst.n - inst.d, inst.d),
        "{}: block with d symbols withheld must be flagged unavailable",
        inst.label
    );
    let smaller: Vec<usize> = inst.worst[..inst.d - 1].to_vec();
    let dmg_d1 = withhold(&inst.cw, &smaller);
    let rec = (inst.recover)(&dmg_d1, &smaller)
        .unwrap_or_else(|| panic!("{}: size-(d-1) withholding MUST recover (available)", inst.label));
    assert_eq!(rec, inst.cw, "{}: size-(d-1) recovery must equal the original block", inst.label);
    assert!(
        is_available(inst.n, inst.n - (inst.d - 1), inst.d),
        "{}: recoverable block must be flagged available (not falsely unavailable)",
        inst.label
    );
}

#[test]
fn worst_case_is_exactly_the_global_decoder_threshold() {
    let f: &'static Gf256 = Box::leak(Box::new(Gf256::new()));
    assert_threshold(&bc_instance(f));
    assert_threshold(&rs2d_instance(f));
}

fn empirical_detection(inst: &Instance, s: usize, trials: usize, seed: u64) -> f64 {
    let withheld: BTreeSet<usize> = inst.worst.iter().copied().collect();
    let mut rng = SampleRng::new(seed);
    let mut detected = 0usize;
    for _ in 0..trials {
        let q = sample(&mut rng, inst.n, s);
        if q.iter().any(|i| withheld.contains(i)) {
            detected += 1;
        }
    }
    detected as f64 / trials as f64
}

fn assert_monte_carlo_matches_formula(inst: &Instance) {
    for (k, &s) in [3usize, 5, 8, 12].iter().enumerate() {
        let trials = 60_000;
        let emp = empirical_detection(inst, s, trials, 0xC0DE_00A5 ^ ((k as u64) << 24));
        let theory = detection_probability(inst.n, inst.d, s);
        assert!(
            (emp - theory).abs() < 0.01,
            "{}: s={s} empirical detection {emp:.4} vs worst-case theory {theory:.4} (n={}, d={})",
            inst.label,
            inst.n,
            inst.d
        );
    }
}

#[test]
fn worst_case_detection_matches_predicted_rate() {
    let f: &'static Gf256 = Box::leak(Box::new(Gf256::new()));
    assert_monte_carlo_matches_formula(&bc_instance(f));
    assert_monte_carlo_matches_formula(&rs2d_instance(f));
}

fn assert_soundness_bound(inst: &Instance) {
    let lambda = 10u32; // target miss <= 2^-10
    let s = required_samples(inst.n, inst.d, lambda);
    let target = (2.0f64).powi(-(lambda as i32));
    let predicted_miss = 1.0 - detection_probability(inst.n, inst.d, s);
    assert!(
        predicted_miss <= target * (1.0 + 1e-9),
        "{}: required_samples gave s={s} whose predicted miss {predicted_miss:.3e} > 2^-{lambda}",
        inst.label
    );
    let trials = 2_000_000usize;
    let emp_detect = empirical_detection(inst, s, trials, 0x5011_D001_u64);
    let emp_miss = 1.0 - emp_detect;
    assert!(
        emp_miss <= 3.0 * target,
        "{}: s={s} empirical miss {emp_miss:.3e} exceeds 3x 2^-{lambda} ({:.3e}) — soundness bound violated",
        inst.label,
        3.0 * target
    );
}

#[test]
fn soundness_bound_holds_against_worst_case() {
    let f: &'static Gf256 = Box::leak(Box::new(Gf256::new()));
    assert_soundness_bound(&bc_instance(f));
    assert_soundness_bound(&rs2d_instance(f));
}

#[test]
fn honest_available_block_passes_sampling_end_to_end() {
    let f = Gf256::new();
    let bc = BlockCirculant::new(&f, 8, 6, 4); // larger instance, n=80
    let cw = bc.encode(&f, &message(bc.k()));
    let tree = MerkleTree::commit(&cw);
    let root = tree.root();
    let n = bc.n();
    let mut rng = SampleRng::new(0x0000_A1A1_AB1E);
    let queried = sample(&mut rng, n, 64);
    for &i in &queried {
        let path = tree.open(i);
        assert!(verify_opening(root, i, cw[i], &path), "honest available block: sample at {i} failed to verify");
    }
    assert!(is_available(n, n, bc.d_formula()));
}
