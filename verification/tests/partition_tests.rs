use port_sniffer::partition::{worker_ports, PortSequence};

#[test]
fn single_worker_probes_every_port() {
    let ports = worker_ports(0, 1);
    assert_eq!(ports.len(), 65535);
    assert_eq!(ports[0], 1);
    assert_eq!(ports[65534], 65535);
    for (k, &p) in ports.iter().enumerate() {
        assert_eq!(p as usize, k + 1);
    }
}

#[test]
fn max_worker_count_gives_one_port_each() {
    for id in [0u16, 1, 1000, 65533, 65534] {
        let ports = worker_ports(id, 65535);
        assert_eq!(ports, vec![id + 1]);
    }
}

#[test]
fn partition_is_total_and_disjoint() {
    for &n in &[1u16, 2, 3, 4, 5, 16, 255, 1000] {
        let classes: Vec<Vec<u16>> = (0..n).map(|id| worker_ports(id, n)).collect();
        for &p in &[1u16, 2, 3, 4, 5, 22, 80, 443, 8080, 32768, 65534, 65535] {
            let owners = classes.iter().filter(|c| c.contains(&p)).count();
            assert_eq!(owners, 1);
        }
    }
}

#[test]
fn four_workers_cover_the_whole_space_once() {
    let mut seen = vec![0u32; 65536];
    for id in 0..4u16 {
        for p in worker_ports(id, 4) {
            seen[p as usize] += 1;
        }
    }
    assert_eq!(seen[0], 0);
    for p in 1..=65535usize {
        assert_eq!(seen[p], 1);
    }
}

#[test]
fn lazy_schedule_walks_the_same_class() {
    let mut schedule = PortSequence::new(2, 7);
    let mut got = vec![];
    while let Some(p) = schedule.next() {
        got.push(p);
    }
    assert_eq!(got, worker_ports(2, 7));
    assert_eq!(schedule.next(), None);

    let mut lone = PortSequence::new(65534, 65535);
    assert_eq!(lone.next(), Some(65535));
    assert_eq!(lone.next(), None);
}

#[test]
fn class_is_strictly_increasing_with_the_worker_count_as_stride() {
    let ports = worker_ports(2, 7);
    assert_eq!(ports[0], 3);
    for w in ports.windows(2) {
        assert_eq!(w[1], w[0] + 7);
    }
    let last = *ports.last().unwrap();
    assert!(last <= 65535);
    assert!(last as u32 + 7 > 65535);
}
