use gem::aig::{DriverType, AIG};
use gem::block::try_simulate_block_v1;
use gem::pe::{process_partitions, BoomerangStage, Partition};
use gem::staging::{build_staged_aigs, StagedAIG};

struct Lcg(u64);

impl Lcg {
    fn next(&mut self, n: usize) -> usize {
        self.0 = self.0.wrapping_mul(6364136223846793005).wrapping_add(1442695040888963407);
        ((self.0 >> 33) as usize) % n
    }

    fn word(&mut self) -> u32 {
        (self.next(1 << 16) as u32) << 16 | self.next(1 << 16) as u32
    }
}

/// A circuit of random gates, the later ones mostly on top of recent ones.
fn circuit(seed: u64, inputs: usize, gates: usize, outputs: usize) -> AIG {
    let mut r = Lcg(seed);
    let mut drivers = vec![DriverType::Tie0];
    for i in 0..inputs {
        drivers.push(DriverType::InputPort(i));
    }
    for _ in 0..gates {
        let n = drivers.len();
        let near = |r: &mut Lcg| {
            let far = r.next(3) == 0;
            let back = 1 + r.next(if far { n - 1 } else { (n - 1).min(12) });
            (n - back) * 2 + r.next(2)
        };
        let a = near(&mut r);
        let b = near(&mut r);
        drivers.push(DriverType::AndGate(a, b));
    }
    let n = drivers.len();
    let primary_outputs = (0..outputs).map(|k| (n - 1 - k % (n - 1)) * 2).collect();
    AIG { num_aigpins: n - 1, drivers, primary_outputs, dffs: vec![], srams: vec![] }
}

/// Checks a stage: every pin is passed through or stands on its two inputs, and the
/// leaves are available. Returns the pins that are written out.
fn check_stage(aig: &AIG, stage: &BoomerangStage, avail: &mut Vec<bool>) -> Vec<usize> {
    let free = usize::MAX;
    let h = &stage.hier;
    for k in 1..h.len() {
        let w = h[k].len();
        assert_eq!(h[k - 1].len(), 2 * w);
        for i in 0..w {
            let p = h[k][i];
            if p == free {
                continue;
            }
            let (a, b) = (h[k - 1][i], h[k - 1][i + w]);
            if a != p {
                match aig.drivers[p] {
                    DriverType::AndGate(x, y) => {
                        assert!(!avail[p]);
                        assert_eq!((a, b), (x / 2, y / 2));
                    }
                    _ => panic!("pin {} is not a gate", p),
                }
            }
        }
    }
    for p in h[0].iter() {
        let gate = *p != free && matches!(aig.drivers[*p], DriverType::AndGate(_, _));
        assert!(!gate || avail[*p]);
    }
    assert!(h[1].iter().any(|p| *p == free));
    let mut written = Vec::new();
    for k in 1..h.len() {
        for (i, p) in h[k].iter().enumerate() {
            if *p != free && stage.write_outs.contains(&((i + h[k].len()) / 32)) {
                written.push(*p);
            }
        }
    }
    for row in &h[1..] {
        for p in row {
            if *p != free {
                avail[*p] = true;
            }
        }
    }
    written
}

fn check_partition(aig: &AIG, staged: &StagedAIG, part: &Partition, limit: usize) {
    let mut avail = vec![false; aig.num_aigpins + 1];
    if let Some(inputs) = &staged.primary_inputs {
        for p in inputs {
            avail[*p] = true;
        }
    }
    let mut written = Vec::new();
    let mut words = 0;
    for pair in part.stages.windows(2) {
        for p in pair[1].hier[0].iter().filter(|p| **p != usize::MAX) {
            assert!(pair[0].hier[1..].iter().any(|row| row.contains(p)));
        }
    }
    for stage in &part.stages {
        assert!(stage.write_outs.iter().all(|w| *w < limit));
        written.extend(check_stage(aig, stage, &mut avail));
        words += stage.write_outs.len();
    }
    assert!(words <= limit);
    let mut outputs: Vec<usize> = Vec::new();
    for e in &part.endpoints {
        outputs.extend(staged.get_endpoint_group(aig, *e).inputs());
    }
    assert!(outputs.iter().all(|pin| written.contains(pin)));
    outputs.sort();
    outputs.dedup();
    assert!(outputs.len() <= 32 * words && 32 * words <= 32 * limit);
}

#[test]
fn partitions_of_random_circuits_are_valid() {
    for seed in 0..12 {
        let aig = circuit(seed, 20 + 3 * seed as usize, 150, 12);
        assert!(aig.check());
        let staged = StagedAIG::from_full_aig(&aig);
        for (num_stages, limit) in [(7, 4), (8, 8), (9, 16)] {
            let eps: Vec<usize> = (0..4 + seed as usize % 5).collect();
            if let Some(part) = Partition::build_one(&aig, &staged, &eps, num_stages) {
                assert_eq!(part.endpoints, eps);
                check_partition(&aig, &staged, &part, limit);
            }
        }
    }
}

#[test]
fn narrow_hierarchies_need_several_stages() {
    let aig = circuit(5, 16, 120, 2);
    let staged = StagedAIG::from_full_aig(&aig);
    let part = Partition::build_one(&aig, &staged, &[0, 1], 9).unwrap();
    check_partition(&aig, &staged, &part, 16);
    let wide = Partition::build_one(&aig, &staged, &[0, 1], 13).unwrap();
    check_partition(&aig, &staged, &wide, 256);
    assert!(wide.stages.len() <= part.stages.len());
}

#[test]
fn merged_partitions_of_random_circuits_are_valid() {
    for seed in 20..24 {
        let aig = circuit(seed, 24, 200, 24);
        let stages = build_staged_aigs(&aig, &[6]);
        for (_, _, staged) in &stages {
            let n = staged.num_endpoint_groups();
            let parts: Vec<Vec<usize>> = (0..n).map(|e| vec![e]).collect();
            let done = process_partitions(&aig, staged, parts, 1, 10).unwrap();
            assert!(done.len() <= n);
            let mut all: Vec<usize> =
                done.iter().flat_map(|p| p.endpoints.iter().copied()).collect();
            all.sort();
            assert_eq!(all, (0..n).collect::<Vec<_>>());
            for p in &done {
                check_partition(&aig, staged, p, 32);
            }
            assert!(done.windows(2).all(|w| w[0].stages.len() >= w[1].stages.len()));
        }
    }
}

#[test]
fn stages_are_joined_by_active_pins() {
    for seed in 40..50 {
        let aig = circuit(seed, 12, 80, 10);
        let stages = build_staged_aigs(&aig, &[2, 5, 7]);
        let mut eps: Vec<usize> =
            stages.iter().flat_map(|s| s.2.endpoints.iter().copied()).collect();
        eps.sort();
        assert_eq!(eps, (0..10).collect::<Vec<_>>());
        for w in stages.windows(2) {
            let inputs = w[1].2.primary_inputs.as_ref().unwrap();
            assert!(w[0].2.primary_output_pins.iter().all(|p| inputs.contains(p)));
        }
    }
}

fn bit(words: &[u32], q: usize) -> u32 {
    words[q / 32] >> (q % 32) & 1
}

#[test]
fn hierarchies_combine_slots_pairwise() {
    let mut r = Lcg(99);
    let mut s = vec![0u32; 256 + 512 + 3 * 5120];
    s[0] = 1;
    s[1] = 1;
    s[2] = 256;
    s[6] = 1;
    for i in 0..128 {
        s[128 + i] = ((2 * i + 1) << 16 | (2 * i)) as u32;
    }
    let input: Vec<u32> = (0..256).map(|_| r.word()).collect();
    for i in 0..256 {
        s[256 + 2 * i] = i as u32;
        s[256 + 2 * i + 1] = r.word();
    }
    let stage = 768;
    for k in 0..4096 {
        s[stage + k] = (r.next(8192) << 16 | r.next(8192)) as u32;
    }
    for k in 0..1024 {
        s[stage + 4096 + k] = r.word();
    }
    let enable = stage + 2 * 5120;
    for i in 0..256 {
        s[enable + 4096 + 4 * i] = 0xffff_ffff;
        s[enable + 4096 + 4 * i + 1] = 0xffff_ffff;
    }
    let part = Partition {
        endpoints: vec![],
        stages: vec![BoomerangStage {
            hier: vec![vec![], vec![]],
            write_outs: (0..256).collect(),
        }],
    };
    let mut out = vec![0u32; 256];
    let log = try_simulate_block_v1(&s, &input, &mut out, &mut [], &[0], &[part], &mut []).unwrap();

    // the bits that are read, lowest first
    let state = &log[0].1;
    for i in 0..256 {
        let mask = s[256 + 2 * i + 1];
        let mut want = 0u32;
        for k in 0..32 {
            if mask >> k & 1 == 1 {
                want = want << 1 | (input[i] >> k & 1);
            }
        }
        assert_eq!(state[i], want);
    }
    // the leaves
    let mut leaves = vec![0u32; 256];
    for i in 0..256 {
        for k in 0..16 {
            let t = s[stage + (k / 4) * 1024 + i * 4 + k % 4];
            leaves[i] |= bit(state, (t & 0xffff) as usize) << (2 * k);
            leaves[i] |= bit(state, (t >> 16) as usize) << (2 * k + 1);
        }
    }
    let flag = |q: usize, f: usize| s[stage + 4096 + (q / 32) * 4 + f] >> (q % 32) & 1;
    let mut w = 4096;
    while w >= 1 {
        for j in 0..w {
            let q = w + j;
            let (a, b) = if w == 4096 {
                (bit(&leaves, j), bit(&leaves, j + 4096))
            } else {
                (bit(&out, q + w), bit(&out, q + 2 * w))
            };
            let want = (a ^ flag(q, 0)) & ((b ^ flag(q, 1)) | flag(q, 2));
            assert_eq!(bit(&out, q), want, "slot {}", q);
        }
        w /= 2;
    }
}

#[test]
fn two_parts_are_joined_or_kept() {
    for seed in 40..46 {
        let aig = circuit(seed, 12, 60, 6);
        let staged = StagedAIG::from_full_aig(&aig);
        let (a, b) = (vec![0, 1, 2], vec![3, 4]);
        let build = |eps: &[usize]| Partition::build_one(&aig, &staged, eps, 9);
        let (pa, pb) = match (build(&a), build(&b)) {
            (Some(pa), Some(pb)) => (pa, pb),
            _ => continue,
        };
        let limit = pa.stages.len().max(pb.stages.len());
        let done = process_partitions(&aig, &staged, vec![a, b], 0, 9).unwrap();
        match build(&[0, 1, 2, 3, 4]) {
            Some(q) if q.stages.len() <= limit => {
                assert_eq!(done.len(), 1);
                assert_eq!(done[0].endpoints, q.endpoints);
                assert_eq!(done[0].stages.len(), q.stages.len());
            }
            _ => {
                assert_eq!(done.len(), 2);
                let first = if pa.stages.len() >= pb.stages.len() { pa } else { pb };
                assert_eq!(done[0].endpoints, first.endpoints);
            }
        }
    }
}

#[test]
fn refined_partitions_are_concatenations() {
    let aig = circuit(50, 12, 60, 6);
    let staged = StagedAIG::from_full_aig(&aig);
    let parts: Vec<Vec<usize>> = (0..6).map(|e| vec![e]).collect();
    for degrad in 0..3 {
        let done = process_partitions(&aig, &staged, parts.clone(), degrad, 9).unwrap();
        let mut all: Vec<usize> = done.iter().flat_map(|p| p.endpoints.clone()).collect();
        all.sort();
        assert_eq!(all, vec![0, 1, 2, 3, 4, 5]);
        for p in &done {
            assert!(p.endpoints.iter().all(|e| *e >= p.endpoints[0]));
        }
        for w in done.windows(2) {
            assert!(w[0].stages.len() >= w[1].stages.len());
            if w[0].stages.len() == w[1].stages.len() {
                assert!(w[0].endpoints[0] < w[1].endpoints[0]);
            }
        }
    }
}

#[test]
fn endpoints_lie_between_the_levels_of_their_stage() {
    let aig = circuit(60, 10, 80, 30);
    let mut depth = vec![0; aig.num_aigpins + 1];
    for p in 1..=aig.num_aigpins {
        if let DriverType::AndGate(a, b) = aig.drivers[p] {
            depth[p] = 1 + depth[a / 2].max(depth[b / 2]);
        }
    }
    for splits in [vec![2, 4], vec![1, 1, 3], vec![0, 2, 2, 5], vec![3, 3, 3]] {
        let stages = build_staged_aigs(&aig, &splits);
        let mut count = 0;
        for (k, (from, to, staged)) in stages.iter().enumerate() {
            for e in &staged.endpoints {
                let d = depth[aig.primary_outputs[*e] / 2];
                assert!(d <= *to);
                assert!(k == 0 || d > *from);
                count += 1;
            }
        }
        assert_eq!(count, 30);
    }
}
