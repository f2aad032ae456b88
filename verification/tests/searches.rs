use ivf_fraud::config::IvfConfig;
use ivf_fraud::http::{answer, process_one, Route};
use ivf_fraud::index::IvfIndex;
use ivf_fraud::probe::{choose_probes, insert_probe, nearest_centroid};
use ivf_fraud::scan::sqdiff_i16;
use ivf_fraud::search::Query;
use ivf_fraud::single::Single;
use ivf_fraud::top5::Top5;

type Row = ([i16; 14], u8, u32);

fn single(value: f32) -> Single {
    Single::from_bits(value.to_bits())
}

fn singles(values: &[f32]) -> Vec<Single> {
    values.iter().map(|&value| single(value)).collect()
}

/// A small source of numbers that look random.
struct Numbers(u64);

impl Numbers {
    fn below(&mut self, limit: u64) -> u64 {
        self.0 = self.0.wrapping_mul(6_364_136_223_846_793_005).wrapping_add(1_442_695_040_888_963_407);
        (self.0 >> 33) % limit
    }

    fn point(&mut self, spread: u64) -> [i16; 14] {
        let mut point = [0i16; 14];
        for coordinate in &mut point {
            *coordinate = self.below(2 * spread + 1) as i16 - spread as i16;
        }
        point
    }
}

/// The bytes of an index with these clusters: centroids at the mean, boxes around the rows.
fn file(clusters: &[Vec<Row>]) -> Vec<u8> {
    let blocks: Vec<usize> = clusters.iter().map(|rows| rows.len().div_ceil(8)).collect();
    let total: usize = blocks.iter().sum();
    let rows: usize = clusters.iter().map(Vec::len).sum();
    let mut bytes = b"IVF8".to_vec();
    for value in [rows as u32, clusters.len() as u32, 14, 10_000, total as u32] {
        bytes.extend_from_slice(&value.to_le_bytes());
    }
    for dim in 0..14 {
        for cluster in clusters {
            let sum: f32 = cluster.iter().map(|row| f32::from(row.0[dim])).sum();
            let mean = sum / cluster.len().max(1) as f32 / 10_000.0;
            bytes.extend_from_slice(&mean.to_le_bytes());
        }
    }
    for cluster in clusters {
        for dim in 0..14 {
            let low = cluster.iter().map(|row| row.0[dim]).min().unwrap_or(0);
            bytes.extend_from_slice(&low.to_le_bytes());
        }
    }
    for cluster in clusters {
        for dim in 0..14 {
            let high = cluster.iter().map(|row| row.0[dim]).max().unwrap_or(0);
            bytes.extend_from_slice(&high.to_le_bytes());
        }
    }
    let mut offset = 0u32;
    bytes.extend_from_slice(&offset.to_le_bytes());
    for count in &blocks {
        offset += *count as u32;
        bytes.extend_from_slice(&offset.to_le_bytes());
    }
    let mut padded: Vec<Option<Row>> = Vec::new();
    for cluster in clusters {
        padded.extend(cluster.iter().map(|row| Some(*row)));
        while padded.len() % 8 != 0 {
            padded.push(None);
        }
    }
    for row in &padded {
        bytes.push(row.map_or(1, |row| row.1));
    }
    for row in &padded {
        bytes.extend_from_slice(&row.map_or(u32::MAX, |row| row.2).to_le_bytes());
    }
    for block in padded.chunks(8) {
        for dim in 0..14 {
            for row in block {
                bytes.extend_from_slice(&row.map_or(0, |row| row.0[dim]).to_le_bytes());
            }
        }
    }
    bytes
}

fn load(clusters: &[Vec<Row>]) -> IvfIndex {
    let index = IvfIndex::load(&file(clusters)).unwrap();
    assert!(index.check_blocks());
    index
}

fn distance(left: &[i16; 14], right: &[i16; 14]) -> u64 {
    (0..14).map(|dim| (i64::from(left[dim]) - i64::from(right[dim])).pow(2) as u64).sum()
}

/// The labels of the five nearest rows, by distance and then by id.
fn brute_force(clusters: &[Vec<Row>], point: &[i16; 14]) -> u8 {
    let mut rows: Vec<(u64, u32, u8)> = Vec::new();
    for cluster in clusters {
        rows.extend(cluster.iter().map(|row| (distance(&row.0, point), row.2, row.1)));
    }
    rows.sort();
    rows.iter().take(5).filter(|row| row.2 != 0).count() as u8
}

fn query(index: &IvfIndex, point: [i16; 14]) -> Query {
    let exact = point.map(|coordinate| f32::from(coordinate) / 10_000.0);
    let clusters = index.clusters as usize;
    let mut distances = Vec::new();
    for cluster in 0..clusters {
        let mut sum = 0.0f32;
        for dim in 0..14 {
            let delta = exact[dim] - f32::from_bits(index.centroids[dim * clusters + cluster].bits);
            sum += delta * delta;
        }
        distances.push(single(sum));
    }
    Query { exact: exact.map(single), quantized: point, distances }
}

fn random_clusters(numbers: &mut Numbers, count: usize, spread: u64) -> Vec<Vec<Row>> {
    let mut id = 0u32;
    let mut clusters = Vec::new();
    for _ in 0..count {
        let centre = numbers.point(9_000);
        let mut rows = Vec::new();
        for _ in 0..numbers.below(30) {
            let mut point = numbers.point(spread);
            for dim in 0..14 {
                point[dim] += centre[dim];
            }
            rows.push((point, numbers.below(2) as u8, id));
            id += 1;
        }
        clusters.push(rows);
    }
    clusters
}

fn settings(fast: u32, full: u32, boundary_full: bool, bbox_repair: bool) -> IvfConfig {
    IvfConfig {
        fast_nprobe: fast,
        full_nprobe: full,
        boundary_full,
        bbox_repair,
        repair_min: 2,
        repair_max: 3,
    }
}

#[test]
fn repaired_search_counts_as_a_full_search_does() {
    let mut numbers = Numbers(7);
    for round in 0..30 {
        let clusters = random_clusters(&mut numbers, 12, 400 + 200 * round);
        let index = load(&clusters);
        if index.n < 5 {
            continue;
        }
        for _ in 0..20 {
            let point = numbers.point(9_500);
            let query = query(&index, point);
            let expected = brute_force(&clusters, &point);
            for nprobe in [1, 2, 5, 12] {
                let count = index.fraud_count_once(&point, &query.distances, nprobe, true);
                assert_eq!(count, expected);
                assert_eq!(index.fraud_count(&query, &settings(nprobe, 1, false, true)), expected);
            }
            let all = index.fraud_count_once(&point, &query.distances, 12, false);
            assert_eq!(all, expected);
            let mut top = Top5::new();
            index.scan_blocks(&mut top, 0, index.labels.len() as u32 / 8, &point);
            assert_eq!(top.frauds(), expected);
            let unknown = vec![single(f32::NAN); 12];
            assert_eq!(index.fraud_count_once(&point, &unknown, 1, true), expected);
        }
    }
}

#[test]
fn search_without_repair_looks_into_the_nearest_cluster_only() {
    let near: Vec<Row> = (0..5).map(|i| ([100 + i as i16; 14], 0, i)).collect();
    let far: Vec<Row> = (5..10).map(|i| ([3_000; 14], 1, i)).collect();
    let index = load(&[far, near]);
    let point = [110i16; 14];
    let query = query(&index, point);
    assert_eq!(index.fraud_count_once(&point, &query.distances, 1, false), 0);
    assert_eq!(index.fraud_count_once(&point, &query.distances, 2, false), 0);
    let other = [2_900i16; 14];
    let distances = singles(&[0.1, 0.2]);
    assert_eq!(index.fraud_count_once(&other, &distances, 1, false), 5);
    let misled = singles(&[0.2, 0.1]);
    assert_eq!(index.fraud_count_once(&other, &misled, 1, false), 0);
    assert_eq!(index.fraud_count_once(&other, &misled, 1, true), 5);
}

#[test]
fn cluster_probed_twice_is_counted_twice() {
    let near: Vec<Row> = (0..5).map(|i| ([i as i16; 14], u8::from(i == 0), i)).collect();
    let index = load(&[near, Vec::new()]);
    let unknown = singles(&[f32::INFINITY, f32::NAN]);
    assert_eq!(index.fraud_count_once(&[0; 14], &unknown, 1, true), 1);
    assert_eq!(choose_probes(&singles(&[f32::INFINITY, f32::INFINITY]), 2), vec![0, 0]);
    let twice = singles(&[f32::INFINITY, f32::INFINITY]);
    assert_eq!(index.fraud_count_once(&[0; 14], &twice, 2, true), 2);
}

#[test]
fn fewer_than_five_rows_count_nothing() {
    let rows: Vec<Row> = (0..4).map(|i| ([0; 14], 1, i)).collect();
    let index = load(&[rows]);
    assert_eq!(index.n, 4);
    assert_eq!(index.fraud_count_once(&[0; 14], &singles(&[0.0]), 1, true), 0);
    let query = query(&index, [0; 14]);
    assert_eq!(index.fraud_count(&query, &settings(1, 1, true, true)), 0);
}

#[test]
fn padding_lanes_are_no_rows() {
    let rows: Vec<Row> = (0..5).map(|i| ([1_000; 14], 0, i)).collect();
    let index = load(&[rows]);
    assert_eq!(index.labels[5..8], [1, 1, 1]);
    assert_eq!(index.fraud_count_once(&[0; 14], &singles(&[0.0]), 1, true), 0);
}

/// Two clusters: in the nearer one the five nearest rows hold three frauds; with the other one
/// they hold none.
fn boundary_index() -> (IvfIndex, Query) {
    let near: Vec<Row> = (0..5).map(|i| ([50 + i as i16; 14], u8::from(i < 3), i)).collect();
    let other: Vec<Row> = (10..15).map(|i| ([-60; 14], 0, i)).chain([([-9_000; 14], 0, 20)]).collect();
    let index = load(&[near, other]);
    let point = [-10i16; 14];
    let query = query(&index, point);
    (index, query)
}

#[test]
fn second_look_is_taken_for_counts_in_the_middle() {
    let (index, query) = boundary_index();
    assert_eq!(index.fraud_count_once(&query.quantized, &query.distances, 1, false), 3);
    assert_eq!(index.fraud_count_once(&query.quantized, &query.distances, 2, false), 0);
    assert_eq!(index.fraud_count(&query, &settings(1, 2, false, false)), 3);
    assert_eq!(index.fraud_count(&query, &settings(1, 2, true, false)), 0);
    assert_eq!(index.fraud_count(&query, &settings(0, 900, true, false)), 0);
    assert_eq!(index.fraud_count(&query, &settings(1, 1, true, false)), 3);
    assert_eq!(index.fraud_count(&query, &settings(1, 1, true, true)), 0);
    let mut narrow = settings(1, 2, true, false);
    narrow.repair_max = 2;
    assert_eq!(index.fraud_count(&query, &narrow), 3);
}

#[test]
fn doubtful_vectors_get_a_second_look() {
    let (index, mut query) = boundary_index();
    let mut config = settings(1, 2, true, false);
    config.repair_min = 5;
    config.repair_max = 0;
    let near: Vec<Row> = (0..5).map(|i| ([50; 14], 1, i)).collect();
    let other: Vec<Row> = (10..16).map(|i| ([-60; 14], 0, i)).chain([([-9_000; 14], 0, 20)]).collect();
    let unanimous = load(&[near, other]);
    assert_eq!(index.fraud_count(&query, &config), 3);
    query.quantized = [-10; 14];
    assert_eq!(unanimous.fraud_count(&query, &config), 5);
    let mut exact = [0.0f32; 14];
    exact[5] = 1.0;
    for (at, value) in [(0, 0.2), (1, 0.5), (2, 0.6), (6, 0.2), (7, 0.2), (8, 0.5), (13, 0.01)] {
        exact[at] = value;
    }
    query.exact = exact.map(single);
    assert_eq!(unanimous.fraud_count(&query, &config), 0);
}

#[test]
fn count_is_sent_back_with_the_request_taken_off() {
    let (index, query) = boundary_index();
    let config = settings(1, 1, false, false);
    let request = b"POST /fraud-score HTTP/1.1\r\nContent-Length: 2\r\n\r\n{}";
    let mut input = request.to_vec();
    input.extend_from_slice(b"rest");
    let answered = process_one(&mut input, Some(&query), &index, &config);
    assert_eq!(answered, Some(answer(Route::FraudScore, Some(3))));
    assert_eq!(input, b"rest".to_vec());
    let mut input = request.to_vec();
    let answered = process_one(&mut input, None, &index, &config);
    assert_eq!(answered, Some(answer(Route::FraudScore, Some(0))));
    let mut input = b"GET /ready HTTP/1.1\r\nA: b\r\n\r\n".to_vec();
    let answered = process_one(&mut input, Some(&query), &index, &config);
    assert_eq!(answered, Some(answer(Route::Ready, None)));
}

#[test]
fn box_bound_stops_early() {
    let rows: Vec<Row> = vec![([10; 14], 0, 0), ([20; 14], 0, 1)];
    let index = load(&[rows]);
    assert_eq!(index.bbox_lower_bound(0, &[15; 14], 0), 0);
    assert_eq!(index.bbox_lower_bound(0, &[7; 14], u64::MAX), 14 * 9);
    assert_eq!(index.bbox_lower_bound(0, &[25; 14], u64::MAX), 14 * 25);
    assert_eq!(index.bbox_lower_bound(0, &[25; 14], 60), 75);
    assert_eq!(index.bbox_lower_bound(0, &[25; 14], 14 * 25), 14 * 25);
}

#[test]
fn scanned_blocks_fill_the_five() {
    let rows: Vec<Row> = (0..20).map(|i| ([i as i16 * 10; 14], (i % 2) as u8, i)).collect();
    let index = load(&[rows]);
    let mut top = Top5::new();
    index.scan_blocks(&mut top, 1, 3, &[0; 14]);
    let mut ids = top.ids;
    ids.sort();
    assert_eq!(ids, [8, 9, 10, 11, 12]);
    assert_eq!(top.worst_distance(), 14 * 120 * 120);
    assert_eq!(top.frauds(), 2);
    index.scan_blocks(&mut top, 0, 1, &[0; 14]);
    let mut ids = top.ids;
    ids.sort();
    assert_eq!(ids, [0, 1, 2, 3, 4]);
    index.scan_blocks(&mut top, 2, 1, &[0; 14]);
    assert_eq!(top.worst_distance(), 14 * 40 * 40);
}

#[test]
fn squares_do_not_overflow() {
    assert_eq!(sqdiff_i16(3, -4), 49);
    assert_eq!(sqdiff_i16(i16::MIN, i16::MAX), 65_535 * 65_535);
}

#[test]
fn five_best_are_kept_by_distance_and_id() {
    let mut top = Top5::new();
    assert_eq!(top.worst_distance(), u64::MAX);
    assert_eq!(top.frauds(), 0);
    for (distance, label, id) in [(9, 1, 9), (5, 0, 5), (7, 1, 7), (1, 1, 1), (3, 0, 3)] {
        top.insert(distance, label, id);
    }
    assert_eq!((top.worst_distance(), top.frauds()), (9, 3));
    assert!(top.better(9, 8, top.worst));
    assert!(!top.better(9, 9, top.worst));
    top.insert(9, 0, 10);
    assert_eq!(top.frauds(), 3);
    top.insert(9, 0, 8);
    assert_eq!((top.worst_distance(), top.frauds()), (9, 2));
    top.insert(2, 7, 2);
    assert_eq!((top.worst_distance(), top.frauds()), (7, 3));
    let mut ids = top.ids;
    ids.sort();
    assert_eq!(ids, [1, 2, 3, 5, 7]);
}

#[test]
fn worst_slot_is_the_first_of_the_worst() {
    let mut top = Top5 { distances: [4, 9, 9, 9, 1], labels: [0; 5], ids: [1, 3, 8, 8, 5], worst: 0 };
    top.refresh_worst();
    assert_eq!(top.worst, 2);
    assert_eq!(top.distances, [4, 9, 9, 9, 1]);
}

#[test]
fn offering_order_does_not_matter() {
    let offers: Vec<(u64, u8, u32)> = (0..12u32).map(|i| (u64::from(i * 7 % 12 / 2), 1, i)).collect();
    let mut sorted = offers.clone();
    sorted.sort_by_key(|offer| (offer.0, offer.2));
    let mut expected: Vec<u32> = sorted.iter().take(5).map(|offer| offer.2).collect();
    expected.sort();
    for turn in 0..12 {
        let mut top = Top5::new();
        for step in 0..12 {
            let offer = offers[(turn + step * 5) % 12];
            top.insert(offer.0, offer.1, offer.2);
        }
        let mut ids = top.ids.to_vec();
        ids.sort();
        assert_eq!(ids, expected, "{turn}");
    }
}

#[test]
fn nearest_centroid_is_the_first_of_the_nearest() {
    assert_eq!(nearest_centroid(&singles(&[3.0, 1.0, 2.0, 1.0])), 1);
    assert_eq!(nearest_centroid(&singles(&[f32::NAN, 5.0])), 1);
    assert_eq!(nearest_centroid(&singles(&[f32::NAN, f32::INFINITY])), 0);
    assert_eq!(nearest_centroid(&[]), 0);
}

#[test]
fn probes_are_sorted_by_distance() {
    assert_eq!(choose_probes(&singles(&[3.0, 1.0, 2.0, 1.0]), 3), vec![1, 3, 2]);
    assert_eq!(choose_probes(&singles(&[3.0, 1.0, 2.0]), 1), vec![1]);
    assert_eq!(choose_probes(&singles(&[2.0, 1.0, 2.0, 2.0]), 2), vec![1, 0]);
    assert_eq!(choose_probes(&singles(&[2.0, 2.0, 1.0, 2.0]), 3), vec![2, 0, 1]);
    assert_eq!(choose_probes(&singles(&[3.0, 1.0]), 4), vec![1, 0, 0, 0]);
    assert_eq!(choose_probes(&singles(&[f32::INFINITY, 1.0, f32::INFINITY]), 2), vec![1, 0]);
}

#[test]
fn probe_is_put_at_its_place() {
    let mut clusters = [4, 5, 6];
    let mut distances = [single(1.0), single(2.0), single(2.0)];
    insert_probe(9, single(2.0), &mut clusters, &mut distances);
    assert_eq!(clusters, [4, 5, 6]);
    insert_probe(9, single(1.0), &mut clusters, &mut distances);
    assert_eq!(clusters, [4, 9, 5]);
    assert_eq!(distances, [single(1.0), single(1.0), single(2.0)]);
    insert_probe(7, single(0.5), &mut clusters, &mut distances);
    assert_eq!(clusters, [7, 4, 9]);
    insert_probe(8, single(f32::NAN), &mut clusters, &mut distances);
    assert_eq!(clusters, [7, 4, 8]);
}

#[test]
fn missing_blocks_are_told() {
    let mut index = load(&[vec![([0; 14], 0, 0)], vec![([1; 14], 0, 1)]]);
    index.offsets[1] = 9;
    assert!(!index.check_blocks());
    index.offsets[1] = 0;
    assert!(index.check_blocks());
}

#[test]
fn missing_blocks_matter_where_they_are_looked_into() {
    let near: Vec<Row> = (0..5).map(|i| ([50; 14], 1, i)).collect();
    let far: Vec<Row> = (5..9).map(|i| ([9_000; 14], 0, i)).collect();
    let none: Vec<Row> = Vec::new();
    let mut index = load(&[near, far, none]);
    index.offsets[2] = 9;
    assert!(!index.check_blocks());
    let near_query = query(&index, [50; 14]);
    let far_query = query(&index, [9_000; 14]);
    assert!(index.check_search(&near_query, &settings(1, 1, false, true)));
    assert_eq!(index.fraud_count(&near_query, &settings(1, 1, false, true)), 5);
    assert!(!index.check_search(&near_query, &settings(3, 1, false, true)));
    assert!(!index.check_search(&far_query, &settings(1, 1, false, false)));
}
