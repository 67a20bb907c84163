use dbscan::algo::{Algo, AlgoError, RegionQuery};
use dbscan::fake_query::FakeQueryEngine;
use dbscan::query::{check_spatial_dimension, MAX_SPATIAL_DIM};
use dbscan::table::RegionTable;
use dbscan::types::{Class, EngineError};

fn dist(a: &[f64], b: &[f64]) -> f64 {
    a.iter()
        .zip(b.iter())
        .map(|(x, y)| (x - y) * (x - y))
        .sum::<f64>()
        .sqrt()
}

fn key(d: f64) -> u64 {
    d.to_bits()
}

fn keys_of(points: &[Vec<f64>]) -> Vec<Vec<u64>> {
    points
        .iter()
        .map(|p| points.iter().map(|q| key(dist(p, q))).collect())
        .collect()
}

fn engine_for(points: &[Vec<f64>]) -> FakeQueryEngine {
    let mut engine = FakeQueryEngine::new();
    engine.init(keys_of(points)).unwrap();
    engine
}

fn cluster(points: &[Vec<f64>], eps: f64, min_pts: usize) -> Vec<Class> {
    let engine = engine_for(points);
    let algo = Algo::new(&engine, key(eps), min_pts).unwrap();
    algo.dbscan()
}

/// The clusters as sets of point indices, sorted, and the noise points.
fn partition(labels: &[Class]) -> (Vec<Vec<usize>>, Vec<usize>) {
    let mut clusters: Vec<Vec<usize>> = Vec::new();
    let mut noise = Vec::new();
    for (i, c) in labels.iter().enumerate() {
        match c {
            Class::Classified(id) => {
                while clusters.len() <= *id {
                    clusters.push(Vec::new());
                }
                clusters[*id].push(i);
            }
            Class::Noise => noise.push(i),
            Class::Unclassified => panic!("point {} left unclassified", i),
        }
    }
    clusters.sort();
    (clusters, noise)
}

fn pts(v: &[&[f64]]) -> Vec<Vec<f64>> {
    v.iter().map(|p| p.to_vec()).collect()
}

#[test]
fn single_dense_blob() {
    let points = pts(&[&[0.0, 0.0], &[0.0, 1.0], &[1.0, 0.0], &[1.0, 1.0], &[0.5, 0.5]]);
    let labels = cluster(&points, 1.5, 2);
    let (clusters, noise) = partition(&labels);
    assert_eq!(clusters, vec![vec![0, 1, 2, 3, 4]]);
    assert!(noise.is_empty());
    assert!(labels.iter().all(|c| *c == Class::Classified(0)));
}

#[test]
fn pure_noise() {
    let points = pts(&[&[0.0, 0.0], &[10.0, 0.0], &[0.0, 10.0], &[10.0, 10.0]]);
    let labels = cluster(&points, 1.0, 2);
    assert!(labels.iter().all(|c| *c == Class::Noise));
    assert!(labels.iter().all(|c| c.code() == -1));
}

#[test]
fn two_blobs_and_outlier() {
    let points = pts(&[
        &[0.0, 0.0],
        &[0.0, 1.0],
        &[1.0, 0.0],
        &[10.0, 10.0],
        &[10.0, 11.0],
        &[11.0, 10.0],
        &[100.0, 100.0],
    ]);
    let labels = cluster(&points, 1.5, 2);
    let (clusters, noise) = partition(&labels);
    assert_eq!(clusters, vec![vec![0, 1, 2], vec![3, 4, 5]]);
    assert_eq!(noise, vec![6]);
}

#[test]
fn border_points_join_cluster() {
    let points = pts(&[&[0.0, 0.0], &[0.0, 1.0], &[0.0, 2.0], &[0.0, 3.0], &[0.0, 10.0]]);
    let labels = cluster(&points, 1.0, 3);
    let (clusters, noise) = partition(&labels);
    assert_eq!(clusters, vec![vec![0, 1, 2, 3]]);
    assert_eq!(noise, vec![4]);
}

#[test]
fn coincident_points_in_one_dimension() {
    let points = pts(&[&[0.0], &[0.0], &[0.0], &[5.0]]);
    let labels = cluster(&points, 0.1, 2);
    let (clusters, noise) = partition(&labels);
    assert_eq!(clusters, vec![vec![0, 1, 2]]);
    assert_eq!(noise, vec![3]);
    assert_eq!(labels[0], labels[1]);
    assert_eq!(labels[1], labels[2]);
}

#[test]
fn high_dimension_falls_back_to_reference_engine() {
    let mut points = Vec::new();
    for i in 0..4 {
        let mut p = vec![0.0; 20];
        p[0] = i as f64 * 0.5;
        points.push(p);
    }
    let mut far = vec![0.0; 20];
    far[19] = 50.0;
    points.push(far);
    assert_eq!(check_spatial_dimension(20), Err(EngineError::UnsupportedDimension));
    let labels = cluster(&points, 1.0, 2);
    let (clusters, noise) = partition(&labels);
    assert_eq!(clusters, vec![vec![0, 1, 2, 3]]);
    assert_eq!(noise, vec![4]);
}

#[test]
fn spatial_dimensions_supported() {
    assert_eq!(check_spatial_dimension(0), Err(EngineError::UnsupportedDimension));
    assert_eq!(check_spatial_dimension(1), Ok(1));
    assert_eq!(check_spatial_dimension(2), Ok(2));
    assert_eq!(check_spatial_dimension(MAX_SPATIAL_DIM), Ok(16));
    assert_eq!(check_spatial_dimension(17), Err(EngineError::UnsupportedDimension));
}

#[test]
fn reference_region_is_points_within_radius() {
    let points = pts(&[&[0.0], &[3.0], &[1.0], &[2.0], &[10.0]]);
    let engine = engine_for(&points);
    assert_eq!(engine.len(), 5);
    // sorted by distance from point 1 (at 3.0): itself, 2.0, 1.0, 0.0, 10.0
    assert_eq!(engine.run(1, key(1.0)), vec![1, 3]);
    assert_eq!(engine.run(1, key(2.0)), vec![1, 3, 2]);
    assert_eq!(engine.run(0, key(2.0)), vec![0, 2, 3]);
    assert_eq!(engine.run(4, key(1.0)), vec![4]);
    assert_eq!(engine.run(4, key(7.0)), vec![4, 1]);
    let mut all = engine.run(0, key(100.0));
    all.sort();
    assert_eq!(all, vec![0, 1, 2, 3, 4]);
}

#[test]
fn reference_region_includes_ties() {
    let points = pts(&[&[0.0, 0.0], &[1.0, 0.0], &[0.0, 1.0], &[-1.0, 0.0], &[2.0, 0.0]]);
    let engine = engine_for(&points);
    let mut r = engine.run(0, key(1.0));
    r.sort();
    assert_eq!(r, vec![0, 1, 2, 3]);
}

#[test]
fn reference_engine_rejects_bad_matrix() {
    let mut engine = FakeQueryEngine::new();
    assert_eq!(engine.init(vec![vec![0, 1], vec![1]]), Err(EngineError::InvalidDistances));
    assert_eq!(engine.init(vec![vec![0, 1], vec![1, 2]]), Err(EngineError::InvalidDistances));
    assert_eq!(engine.len(), 0);
    assert_eq!(engine.init(vec![vec![0, 1], vec![1, 0]]), Ok(()));
    assert_eq!(engine.len(), 2);
}

#[test]
fn empty_input_gives_no_labels() {
    let engine = engine_for(&[]);
    let algo = Algo::new(&engine, key(1.0), 1).unwrap();
    assert!(algo.dbscan().is_empty());
}

#[test]
fn driver_rejects_bad_parameters() {
    let engine = engine_for(&pts(&[&[0.0]]));
    assert_eq!(Algo::new(&engine, 0, 2).err(), Some(AlgoError::ZeroRadius));
    assert_eq!(Algo::new(&engine, key(1.0), 0).err(), Some(AlgoError::ZeroMinPoints));
    let table = RegionTable::new(key(1.0), vec![vec![0]]).unwrap();
    assert_eq!(Algo::new(&table, key(2.0), 1).err(), Some(AlgoError::RadiusNotServed));
    assert!(Algo::new(&table, key(1.0), 1).is_ok());
}

#[test]
fn table_engine_clusters_like_reference() {
    let points = pts(&[&[0.0, 0.0], &[0.0, 1.0], &[0.0, 2.0], &[0.0, 3.0], &[0.0, 10.0]]);
    let eps = key(1.0);
    let engine = engine_for(&points);
    let regions: Vec<Vec<usize>> = (0..points.len()).map(|i| engine.run(i, eps)).collect();
    let table = RegionTable::new(eps, regions).unwrap();
    assert_eq!(table.run(1, eps), engine.run(1, eps));
    let a = Algo::new(&table, eps, 3).unwrap().dbscan();
    let b = Algo::new(&engine, eps, 3).unwrap().dbscan();
    assert_eq!(partition(&a), partition(&b));
}

#[test]
fn table_rejects_invalid_regions() {
    let eps = key(1.0);
    assert_eq!(RegionTable::new(eps, vec![vec![0, 2], vec![1]]).err(), Some(EngineError::InvalidRegions));
    assert_eq!(RegionTable::new(eps, vec![vec![0, 0], vec![1]]).err(), Some(EngineError::InvalidRegions));
    assert_eq!(RegionTable::new(eps, vec![vec![1], vec![1]]).err(), Some(EngineError::InvalidRegions));
    assert!(RegionTable::new(eps, vec![vec![0, 1], vec![1, 0]]).is_ok());
}

#[test]
fn label_codes() {
    assert_eq!(Class::Classified(0).code(), 0);
    assert_eq!(Class::Classified(7).code(), 7);
    assert_eq!(Class::Noise.code(), -1);
    assert_eq!(Class::Unclassified.code(), -1);
}

#[test]
fn cluster_ids_are_consecutive_and_cores_covered() {
    let points = pts(&[
        &[0.0, 0.0],
        &[0.5, 0.0],
        &[5.0, 5.0],
        &[5.5, 5.0],
        &[20.0, 0.0],
        &[20.5, 0.0],
        &[40.0, 40.0],
    ]);
    let eps = 1.0;
    let labels = cluster(&points, eps, 2);
    let mut ids: Vec<usize> = labels
        .iter()
        .filter_map(|c| match c {
            Class::Classified(id) => Some(*id),
            _ => None,
        })
        .collect();
    ids.sort();
    ids.dedup();
    assert_eq!(ids, vec![0, 1, 2]);
    for (i, p) in points.iter().enumerate() {
        let n = points.iter().filter(|q| dist(p, q) <= eps).count();
        if n >= 2 {
            assert!(matches!(labels[i], Class::Classified(_)));
        }
    }
    assert_eq!(labels[6], Class::Noise);
}

#[test]
fn k_dist_counts_coincident_points() {
    let points = pts(&[&[0.0], &[1.0], &[1.0], &[3.0]]);
    let engine = engine_for(&points);
    assert_eq!(engine.k_dist(0, 1), Some(key(1.0)));
    assert_eq!(engine.k_dist(0, 2), Some(key(1.0)));
    assert_eq!(engine.k_dist(0, 3), Some(key(3.0)));
    assert_eq!(engine.k_dist(1, 1), Some(0));
    assert_eq!(engine.k_dist(1, 2), Some(key(1.0)));
    assert_eq!(engine.k_dist(3, 1), Some(key(2.0)));
    assert_eq!(engine.k_dist(3, 3), Some(key(3.0)));
}

#[test]
fn k_dist_out_of_range() {
    let points = pts(&[&[0.0], &[1.0], &[2.0]]);
    let engine = engine_for(&points);
    assert_eq!(engine.k_dist(0, 0), None);
    assert_eq!(engine.k_dist(0, 3), None);
    assert_eq!(engine.k_dist(2, 4), None);
    assert_eq!(engine.k_dist(2, 2), Some(key(2.0)));
}

#[test]
fn noise_agrees_between_engines() {
    let points = pts(&[&[0.0, 0.0], &[0.0, 1.0], &[5.0, 5.0], &[5.0, 5.5], &[9.0, 0.0]]);
    let eps = key(1.0);
    let engine = engine_for(&points);
    let regions: Vec<Vec<usize>> = (0..points.len())
        .map(|i| {
            let mut r = engine.run(i, eps);
            r.reverse();
            r
        })
        .collect();
    let table = RegionTable::new(eps, regions).unwrap();
    let a = Algo::new(&table, eps, 2).unwrap().dbscan();
    let b = Algo::new(&engine, eps, 2).unwrap().dbscan();
    let noise_a: Vec<bool> = a.iter().map(|c| *c == Class::Noise).collect();
    let noise_b: Vec<bool> = b.iter().map(|c| *c == Class::Noise).collect();
    assert_eq!(noise_a, noise_b);
    assert_eq!(noise_a, vec![false, false, false, false, true]);
}

#[test]
fn reference_engine_rejects_asymmetric_matrix() {
    let mut engine = FakeQueryEngine::new();
    assert_eq!(
        engine.init(vec![vec![0, 1, 2], vec![1, 0, 3], vec![2, 4, 0]]),
        Err(EngineError::InvalidDistances)
    );
    assert_eq!(engine.len(), 0);
}

#[test]
fn table_rejects_asymmetric_regions() {
    let eps = key(1.0);
    assert_eq!(RegionTable::new(eps, vec![vec![0, 1], vec![1]]).err(), Some(EngineError::InvalidRegions));
    assert!(RegionTable::new(eps, vec![vec![0, 1], vec![0, 1], vec![2]]).is_ok());
}

#[test]
fn chain_of_cores_is_one_cluster() {
    let points = pts(&[&[0.0], &[1.0], &[2.0], &[3.0], &[4.0], &[10.0], &[11.0]]);
    let labels = cluster(&points, 1.0, 2);
    let (clusters, noise) = partition(&labels);
    assert_eq!(clusters, vec![vec![0, 1, 2, 3, 4], vec![5, 6]]);
    assert!(noise.is_empty());
}
