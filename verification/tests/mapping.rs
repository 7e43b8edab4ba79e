use rescuemap::mapping::{Cluster, Domain, MapFile, Stage};

fn cluster_with_stage(stage: Stage) -> Cluster {
    let mut c = Cluster::default();
    c.set_stage(stage);
    c
}

// Test for MapFile::get_stage()
#[test]
fn test_get_stage() {
    let mut mf = MapFile::default();
    let mut mf_stage = mf.get_stage();

    // If this fails here, there's something SERIOUSLY wrong.
    assert!(
        mf_stage == Stage::Untested,
        "Determined stage to be {:?}, when {:?} was expeccted.",
        mf_stage,
        Stage::Untested
    );

    let stages = vec![
        Stage::Damaged,
        Stage::ForIsolation(1),
        Stage::ForIsolation(0),
        Stage::Untested,
    ];

    mf.map = vec![];

    for stage in stages {
        mf.map.push(cluster_with_stage(stage));

        mf_stage = mf.get_stage();

        assert!(
            stage == mf_stage,
            "Expected stage to be {:?}, determined {:?} instead.",
            stage,
            mf_stage
        )
    }
}

// Test for MapFile::get_clusters()
#[test]
fn test_get_clusters() {
    let mut mf = MapFile::default();

    mf.map = vec![
        cluster_with_stage(Stage::Damaged),
        cluster_with_stage(Stage::ForIsolation(0)),
        cluster_with_stage(Stage::ForIsolation(1)),
        Cluster::default(),
        Cluster::default(),
        cluster_with_stage(Stage::ForIsolation(1)),
        cluster_with_stage(Stage::ForIsolation(0)),
        cluster_with_stage(Stage::Damaged),
    ];

    let stages = vec![
        Stage::Damaged,
        Stage::ForIsolation(1),
        Stage::ForIsolation(0),
        Stage::Untested,
    ];

    for stage in stages {
        let expected = vec![cluster_with_stage(stage), cluster_with_stage(stage)];
        let recieved = mf.get_clusters(stage);

        assert!(
            expected == recieved,
            "Expected clusters {:?}, got {:?}.",
            expected,
            recieved
        )
    }
}

// Test for MapFile::defrag()
#[test]
fn test_defrag() {
    let mut mf = MapFile {
        sector_size: 1,
        domain: Domain { start: 0, end: 8 },
        map: vec![
            Cluster {
                domain: Domain { start: 0, end: 1 },
                stage: Stage::Untested,
            },
            Cluster {
                domain: Domain { start: 1, end: 2 },
                stage: Stage::Untested,
            },
            Cluster {
                domain: Domain { start: 2, end: 3 },
                stage: Stage::Untested,
            },
            Cluster {
                domain: Domain { start: 3, end: 4 },
                stage: Stage::ForIsolation(0),
            },
            Cluster {
                domain: Domain { start: 4, end: 5 },
                stage: Stage::ForIsolation(0),
            },
            Cluster {
                domain: Domain { start: 5, end: 6 },
                stage: Stage::ForIsolation(1),
            },
            Cluster {
                domain: Domain { start: 6, end: 7 },
                stage: Stage::ForIsolation(0),
            },
            Cluster {
                domain: Domain { start: 7, end: 8 },
                stage: Stage::Damaged,
            },
        ],
    };

    let expected = vec![
        Cluster {
            domain: Domain { start: 0, end: 3 },
            stage: Stage::Untested,
        },
        Cluster {
            domain: Domain { start: 3, end: 5 },
            stage: Stage::ForIsolation(0),
        },
        Cluster {
            domain: Domain { start: 5, end: 6 },
            stage: Stage::ForIsolation(1),
        },
        Cluster {
            domain: Domain { start: 6, end: 7 },
            stage: Stage::ForIsolation(0),
        },
        Cluster {
            domain: Domain { start: 7, end: 8 },
            stage: Stage::Damaged,
        },
    ];

    mf.defrag();

    let recieved = mf.map;

    assert!(
        expected == recieved,
        "Expected {:?} after defragging, got {:?}.",
        expected,
        recieved
    )
}

#[test]
fn test_defrag_idempotent() {
    let mut mf = MapFile {
        sector_size: 1,
        domain: Domain { start: 0, end: 6 },
        map: vec![
            Cluster {
                domain: Domain { start: 0, end: 2 },
                stage: Stage::Untested,
            },
            Cluster {
                domain: Domain { start: 2, end: 3 },
                stage: Stage::Untested,
            },
            Cluster {
                domain: Domain { start: 3, end: 5 },
                stage: Stage::Damaged,
            },
            Cluster {
                domain: Domain { start: 5, end: 6 },
                stage: Stage::ForIsolation(0),
            },
        ],
    };

    mf.defrag();
    let once = mf.map.clone();
    mf.defrag();
    let twice = mf.map.clone();

    assert!(
        once == twice,
        "Defragging twice gave {:?}, expected {:?}.",
        twice,
        once
    );
}

#[test]
fn test_defrag_keeps_stage_ranges() {
    // Coalescing must not move any sector to a different stage: the union of
    // ranges per stage is the same before and after.
    let mut mf = MapFile {
        sector_size: 1,
        domain: Domain { start: 0, end: 8 },
        map: vec![
            Cluster {
                domain: Domain { start: 0, end: 1 },
                stage: Stage::ForIsolation(0),
            },
            Cluster {
                domain: Domain { start: 1, end: 4 },
                stage: Stage::ForIsolation(0),
            },
            Cluster {
                domain: Domain { start: 4, end: 6 },
                stage: Stage::Damaged,
            },
            Cluster {
                domain: Domain { start: 6, end: 8 },
                stage: Stage::ForIsolation(0),
            },
        ],
    };

    let stage_of_sector = |mf: &MapFile, s: usize| -> Option<Stage> {
        for c in mf.map.iter() {
            if c.domain.start <= s && s < c.domain.end {
                return Some(c.stage);
            }
        }
        None
    };

    let before: Vec<Option<Stage>> = (0..8).map(|s| stage_of_sector(&mf, s)).collect();
    mf.defrag();
    let after: Vec<Option<Stage>> = (0..8).map(|s| stage_of_sector(&mf, s)).collect();

    assert_eq!(before, after);
    assert_eq!(
        mf.map,
        vec![
            Cluster {
                domain: Domain { start: 0, end: 4 },
                stage: Stage::ForIsolation(0),
            },
            Cluster {
                domain: Domain { start: 4, end: 6 },
                stage: Stage::Damaged,
            },
            Cluster {
                domain: Domain { start: 6, end: 8 },
                stage: Stage::ForIsolation(0),
            },
        ]
    );
}

#[test]
fn test_summary_stage_precedence() {
    let mut mf = MapFile::default();
    mf.domain = Domain { start: 0, end: 4 };
    mf.map = vec![
        Cluster {
            domain: Domain { start: 0, end: 1 },
            stage: Stage::Damaged,
        },
        Cluster {
            domain: Domain { start: 1, end: 2 },
            stage: Stage::ForIsolation(1),
        },
        Cluster {
            domain: Domain { start: 2, end: 3 },
            stage: Stage::ForIsolation(0),
        },
        Cluster {
            domain: Domain { start: 3, end: 4 },
            stage: Stage::Untested,
        },
    ];
    assert_eq!(mf.get_stage(), Stage::Untested);

    // Without the untested cluster, the minimum isolation level present wins.
    mf.map.pop();
    assert_eq!(mf.get_stage(), Stage::ForIsolation(0));

    // With only damaged clusters left, nothing remains to attempt.
    mf.map = vec![Cluster {
        domain: Domain { start: 0, end: 1 },
        stage: Stage::Damaged,
    }];
    assert_eq!(mf.get_stage(), Stage::Damaged);

    // An empty working set reports the terminal stage as well.
    mf.map = vec![];
    assert_eq!(mf.get_stage(), Stage::Damaged);
}

#[test]
fn test_subdivide_covers_exactly() {
    let c = Cluster {
        domain: Domain { start: 0, end: 8 },
        stage: Stage::ForIsolation(2),
    };
    let parts = c.subdivide(3);
    assert_eq!(
        parts,
        vec![
            Cluster {
                domain: Domain { start: 0, end: 3 },
                stage: Stage::ForIsolation(2),
            },
            Cluster {
                domain: Domain { start: 3, end: 6 },
                stage: Stage::ForIsolation(2),
            },
            Cluster {
                domain: Domain { start: 6, end: 8 },
                stage: Stage::ForIsolation(2),
            },
        ]
    );
}

#[test]
fn test_subdivide_exact_multiple() {
    let c = Cluster {
        domain: Domain { start: 4, end: 12 },
        stage: Stage::Untested,
    };
    let parts = c.subdivide(4);
    assert_eq!(
        parts,
        vec![
            Cluster {
                domain: Domain { start: 4, end: 8 },
                stage: Stage::Untested,
            },
            Cluster {
                domain: Domain { start: 8, end: 12 },
                stage: Stage::Untested,
            },
        ]
    );
}

#[test]
fn test_subdivide_oversized_group() {
    let c = Cluster {
        domain: Domain { start: 2, end: 5 },
        stage: Stage::Untested,
    };
    let parts = c.subdivide(16);
    assert_eq!(parts, vec![c]);
}

#[test]
fn test_update_interior_fracture() {
    let mut mf = MapFile::new_spanning(512, Domain { start: 0, end: 8 });
    mf.update(Cluster {
        domain: Domain { start: 2, end: 4 },
        stage: Stage::ForIsolation(0),
    });
    assert_eq!(
        mf.map,
        vec![
            Cluster {
                domain: Domain { start: 0, end: 2 },
                stage: Stage::Untested,
            },
            Cluster {
                domain: Domain { start: 2, end: 4 },
                stage: Stage::ForIsolation(0),
            },
            Cluster {
                domain: Domain { start: 4, end: 8 },
                stage: Stage::Untested,
            },
        ]
    );
    assert!(mf.check_tiling());
}

#[test]
fn test_update_crops_and_subsumes() {
    let mut mf = MapFile::new_spanning(512, Domain { start: 0, end: 10 });
    mf.update(Cluster {
        domain: Domain { start: 2, end: 4 },
        stage: Stage::ForIsolation(0),
    });
    mf.update(Cluster {
        domain: Domain { start: 4, end: 6 },
        stage: Stage::Damaged,
    });
    // Overlays the tail of the first overlay, the whole damaged cluster, and
    // part of the untested remainder.
    mf.update(Cluster {
        domain: Domain { start: 3, end: 7 },
        stage: Stage::ForIsolation(1),
    });
    assert_eq!(
        mf.map,
        vec![
            Cluster {
                domain: Domain { start: 0, end: 2 },
                stage: Stage::Untested,
            },
            Cluster {
                domain: Domain { start: 2, end: 3 },
                stage: Stage::ForIsolation(0),
            },
            Cluster {
                domain: Domain { start: 3, end: 7 },
                stage: Stage::ForIsolation(1),
            },
            Cluster {
                domain: Domain { start: 7, end: 10 },
                stage: Stage::Untested,
            },
        ]
    );
    assert!(mf.check_tiling());
}

#[test]
fn test_update_then_defrag_tiles() {
    // Fragment the tiling down to single sectors, restage them, and defrag:
    // the result must again tile the whole domain exactly.
    let mut mf = MapFile::new_spanning(2048, Domain { start: 0, end: 8 });
    for s in 0..8usize {
        mf.update(Cluster {
            domain: Domain {
                start: s,
                end: s + 1,
            },
            stage: if s % 2 == 0 {
                Stage::ForIsolation(0)
            } else {
                Stage::Untested
            },
        });
        assert!(mf.check_tiling());
    }
    mf.defrag();
    assert!(mf.check_tiling());
    let mut covered = 0usize;
    for w in mf.map.windows(2) {
        assert!(w[0].domain.end == w[1].domain.start);
        assert!(w[0].stage != w[1].stage);
    }
    for c in mf.map.iter() {
        covered += c.domain.end - c.domain.start;
    }
    assert_eq!(covered, 8);
    assert_eq!(mf.map.first().unwrap().domain.start, 0);
    assert_eq!(mf.map.last().unwrap().domain.end, 8);
}

#[test]
fn test_mark_recovered_shrinks_working_set() {
    let mut mf = MapFile::new_spanning(512, Domain { start: 0, end: 8 });
    mf.mark_recovered(Domain { start: 0, end: 3 });
    assert_eq!(
        mf.map,
        vec![Cluster {
            domain: Domain { start: 3, end: 8 },
            stage: Stage::Untested,
        }]
    );
    mf.mark_recovered(Domain { start: 4, end: 6 });
    assert_eq!(
        mf.map,
        vec![
            Cluster {
                domain: Domain { start: 3, end: 4 },
                stage: Stage::Untested,
            },
            Cluster {
                domain: Domain { start: 6, end: 8 },
                stage: Stage::Untested,
            },
        ]
    );
    mf.mark_recovered(Domain { start: 3, end: 4 });
    mf.mark_recovered(Domain { start: 6, end: 8 });
    assert!(mf.map.is_empty());
    assert_eq!(mf.get_stage(), Stage::Damaged);
}

#[test]
fn test_check_tiling_rejects_faults() {
    let good = MapFile {
        sector_size: 512,
        domain: Domain { start: 0, end: 4 },
        map: vec![
            Cluster {
                domain: Domain { start: 0, end: 2 },
                stage: Stage::Untested,
            },
            Cluster {
                domain: Domain { start: 2, end: 4 },
                stage: Stage::Damaged,
            },
        ],
    };
    assert!(good.check_tiling());

    let mut gap = good.clone();
    gap.map[1].domain.start = 3;
    assert!(!gap.check_tiling());

    let mut short = good.clone();
    short.map[1].domain.end = 3;
    assert!(!short.check_tiling());

    let mut late_start = good.clone();
    late_start.map[0].domain.start = 1;
    assert!(!late_start.check_tiling());

    let mut empty_cluster = good.clone();
    empty_cluster.map[0].domain.end = 0;
    assert!(!empty_cluster.check_tiling());
}

#[test]
fn test_new_and_defaults() {
    let mf = MapFile::new(512);
    assert_eq!(mf.sector_size, 512);
    assert_eq!(mf.domain, Domain { start: 0, end: 1 });
    assert_eq!(
        mf.map,
        vec![Cluster {
            domain: Domain { start: 0, end: 1 },
            stage: Stage::Untested,
        }]
    );

    let d = MapFile::default();
    assert_eq!(d.sector_size, 2048);

    let mut resized = MapFile::default();
    resized.set_sector_size(4096);
    assert_eq!(resized.sector_size, 4096);

    assert_eq!(Domain::default(), Domain { start: 0, end: 1 });
    assert_eq!(Stage::default(), Stage::Untested);
    assert_eq!(Cluster::default().stage, Stage::Untested);
}

#[test]
fn test_new_spanning() {
    let mf = MapFile::new_spanning(2048, Domain { start: 0, end: 4096 });
    assert_eq!(mf.sector_size, 2048);
    assert_eq!(mf.domain, Domain { start: 0, end: 4096 });
    assert_eq!(mf.map.len(), 1);
    assert_eq!(mf.map[0].domain, Domain { start: 0, end: 4096 });
    assert_eq!(mf.map[0].stage, Stage::Untested);
    assert!(mf.check_tiling());
}

#[test]
fn test_domain_len() {
    assert_eq!(Domain { start: 2, end: 10 }.len(), 8);
    assert_eq!(Domain { start: 5, end: 6 }.len(), 1);
    assert_eq!(Domain { start: 7, end: 7 }.len(), 0);
    assert_eq!(
        Domain {
            start: 0,
            end: usize::MAX
        }
        .len(),
        usize::MAX
    );
}

#[test]
fn test_stage_precedes() {
    assert!(Stage::Untested.precedes(Stage::ForIsolation(0)));
    assert!(Stage::Untested.precedes(Stage::Damaged));
    assert!(Stage::ForIsolation(0).precedes(Stage::ForIsolation(1)));
    assert!(Stage::ForIsolation(7).precedes(Stage::Damaged));
    assert!(!Stage::Untested.precedes(Stage::Untested));
    assert!(!Stage::ForIsolation(1).precedes(Stage::ForIsolation(1)));
    assert!(!Stage::ForIsolation(1).precedes(Stage::ForIsolation(0)));
    assert!(!Stage::Damaged.precedes(Stage::Untested));
    assert!(!Stage::Damaged.precedes(Stage::Damaged));
}

#[test]
fn test_set_stage() {
    let mut c = Cluster {
        domain: Domain { start: 3, end: 9 },
        stage: Stage::Untested,
    };
    c.set_stage(Stage::ForIsolation(4));
    assert_eq!(c.stage, Stage::ForIsolation(4));
    assert_eq!(c.domain, Domain { start: 3, end: 9 });
}
