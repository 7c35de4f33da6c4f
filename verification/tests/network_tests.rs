use resistor_grid::errors::GridError;
use resistor_grid::impedance_network::ImpedanceNetwork;

#[test]
fn test_new() {
    let net: ImpedanceNetwork<i64> = ImpedanceNetwork::new(4);
    assert_eq!(net.size(), 4);
}

#[test]
fn test_swap() {
    let mut net: ImpedanceNetwork<i64> = ImpedanceNetwork::new(4);

    net.set_edge(0, 1, 1001).unwrap();
    net.set_edge(0, 2, 1002).unwrap();
    net.set_edge(0, 3, 1003).unwrap();
    net.set_edge(0, 3, 1003).unwrap();
    net.set_edge(1, 2, 1012).unwrap();
    net.set_edge(1, 3, 1013).unwrap();
    net.set_edge(2, 3, 1023).unwrap();

    net.swap_nodes(1, 2);

    assert_eq!(*net.get_edge(0, 1).unwrap(), 1002);
    assert_eq!(*net.get_edge(0, 2).unwrap(), 1001);
    assert_eq!(*net.get_edge(0, 3).unwrap(), 1003);
    assert_eq!(*net.get_edge(1, 2).unwrap(), 1012);
    assert_eq!(*net.get_edge(1, 3).unwrap(), 1023);
    assert_eq!(*net.get_edge(2, 3).unwrap(), 1013);
}

#[test]
fn test_swap_is_involution() {
    let mut net: ImpedanceNetwork<i64> = ImpedanceNetwork::new(5);
    let mut v: i64 = 1;
    for a in 0..5u32 {
        for b in (a + 1)..5u32 {
            net.set_edge(a as usize, b as usize, v).unwrap();
            v += 1;
        }
    }
    let before: Vec<i64> = {
        let mut out = Vec::new();
        for a in 0..5usize {
            for b in (a + 1)..5usize {
                out.push(*net.get_edge(a, b).unwrap());
            }
        }
        out
    };
    net.swap_nodes(1, 3);
    net.swap_nodes(1, 3);
    let after: Vec<i64> = {
        let mut out = Vec::new();
        for a in 0..5usize {
            for b in (a + 1)..5usize {
                out.push(*net.get_edge(a, b).unwrap());
            }
        }
        out
    };
    assert_eq!(before, after);
}

#[test]
fn test_index_bijection() {
    // for 5 nodes the offsets of the 10 unordered pairs cover 0..10 exactly
    let net: ImpedanceNetwork<i64> = ImpedanceNetwork::new(5);
    let mut seen = vec![false; 10];
    for a in 0..5usize {
        for b in 0..5usize {
            if a != b {
                let k = net.index(a, b).unwrap();
                assert!(k < 10);
                assert_eq!(k, net.index(b, a).unwrap());
                if a < b {
                    assert!(!seen[k]);
                    seen[k] = true;
                }
            }
        }
    }
    assert!(seen.iter().all(|s| *s));
}

#[test]
fn test_index_errors() {
    let net: ImpedanceNetwork<i64> = ImpedanceNetwork::new(3);
    assert_eq!(net.index(1, 1), Err(GridError::InvalidEdge));
    assert_eq!(net.index(0, 3), Err(GridError::NodeOutOfRange));
    assert_eq!(net.index(7, 0), Err(GridError::NodeOutOfRange));
    assert!(net.get_edge(2, 2).is_err());
    let mut net2 = net;
    assert_eq!(net2.set_edge(3, 0, 5), Err(GridError::NodeOutOfRange));
}

#[test]
fn test_get_matrix_scaffold() {
    let net: ImpedanceNetwork<i64> = ImpedanceNetwork::new(4);
    let m = net.get_matrix(0, 1);
    // dimension 1 + 4*3/2 = 7, identity-seeded origin, zero elsewhere
    assert_eq!(m.rows(), 7);
    assert_eq!(m.cols(), 7);
    assert!(m.is_square());
    assert_eq!(*m.get(0, 0).unwrap(), 1);
    for r in 0..7usize {
        for c in 0..7usize {
            if (r, c) != (0, 0) {
                assert_eq!(*m.get(r, c).unwrap(), 0);
            }
        }
    }
}

#[test]
fn test_new_edges_are_zero() {
    let net: ImpedanceNetwork<i64> = ImpedanceNetwork::new(4);
    for a in 0..4usize {
        for b in 0..4usize {
            if a != b {
                assert_eq!(*net.get_edge(a, b).unwrap(), 0);
            }
        }
    }
}
