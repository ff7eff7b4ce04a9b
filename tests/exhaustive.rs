use vdb::{DbError, Metadata, Metric, Neighbor, Params, SearchResult, VectorDB};

/// The database with its log file kept in memory and an exhaustive index.
struct Mem {
    db: VectorDB,
    file: Vec<u8>,
}

fn bits(v: &[f32]) -> Vec<u32> {
    v.iter().map(|x| x.to_bits()).collect()
}

fn floats(v: &[u32]) -> Vec<f32> {
    v.iter().map(|x| f32::from_bits(*x)).collect()
}

fn distance(metric: Metric, a: &[f32], b: &[f32]) -> u32 {
    match metric {
        Metric::Cosine => {
            let dot: f32 = a.iter().zip(b.iter()).map(|(x, y)| x * y).sum();
            let na: f32 = a.iter().map(|x| x * x).sum::<f32>().sqrt();
            let nb: f32 = b.iter().map(|x| x * x).sum::<f32>().sqrt();
            let cos = if na < 1e-6 || nb < 1e-6 { 0.0 } else { dot / (na * nb) };
            (1.0 - cos).max(0.0f32).to_bits()
        }
        Metric::Euclidean => {
            let sum: f32 = a.iter().zip(b.iter()).map(|(x, y)| (x - y).powi(2)).sum();
            sum.sqrt().to_bits()
        }
    }
}

impl Mem {
    fn open(file: Option<Vec<u8>>, metric: Metric) -> Result<Mem, DbError> {
        match file {
            Some(file) => {
                let db = VectorDB::open(&file, metric)?;
                Ok(Mem { db, file })
            }
            None => {
                let (db, file) = VectorDB::create(metric, Params::default());
                Ok(Mem { db, file })
            }
        }
    }

    fn add(&mut self, id: usize, v: Vec<f32>, md: Metadata) -> Result<(), DbError> {
        let a = self.db.add(id, bits(&v), md)?;
        if let Some(h) = a.header {
            self.file[..h.len()].copy_from_slice(&h);
        }
        self.file.extend_from_slice(&a.record);
        Ok(())
    }

    fn remove(&mut self, id: usize) -> Result<(), DbError> {
        self.file = self.db.remove(id)?;
        Ok(())
    }

    fn update(&mut self, id: usize, v: Vec<f32>, md: Metadata) -> Result<(), DbError> {
        self.file = self.db.update(id, bits(&v), md)?;
        Ok(())
    }

    fn candidates(&self, q: &[f32]) -> Vec<Neighbor> {
        let metric = self.db.metric();
        self.db
            .entries()
            .iter()
            .enumerate()
            .map(|(i, e)| Neighbor { index: i, distance: distance(metric, q, &floats(&e.vector)) })
            .collect()
    }

    fn search(&self, q: &[f32], k: usize) -> Result<Vec<SearchResult>, DbError> {
        let qb = bits(q);
        self.db.beam_width(&qb, k)?;
        self.db.search(&qb, k, &self.candidates(q))
    }
}

fn meta(label: &str) -> Metadata {
    Metadata { label: label.into(), description: None }
}

fn euclid(a: &[f32], b: &[f32]) -> f32 {
    a.iter().zip(b.iter()).map(|(x, y)| (x - y).powi(2)).sum::<f32>().sqrt()
}

#[test]
fn exhaustive_search() {
    let mut db = Mem::open(None, Metric::Euclidean).unwrap();
    let vectors = vec![vec![1.0, 0.0], vec![0.0, 1.0], vec![1.0, 1.0], vec![2.0, 2.0]];
    for (i, v) in vectors.iter().enumerate() {
        db.add(i, v.clone(), Metadata { label: i.to_string(), description: None }).unwrap();
    }
    let query = vec![1.0, 0.5];
    let results = db.search(&query, 3).unwrap();
    let mut expected: Vec<(usize, f32)> =
        vectors.iter().enumerate().map(|(i, v)| (i, euclid(&query, v))).collect();
    expected.sort_by(|a, b| a.1.partial_cmp(&b.1).unwrap());
    for (res, exp) in results.iter().zip(expected.iter()) {
        assert_eq!(res.id, exp.0);
    }
    let ids: Vec<usize> = results.iter().map(|r| r.id).collect();
    assert_eq!(ids, vec![0, 2, 1]);
    assert_eq!(f32::from_bits(results[0].distance), 0.5);
}

#[test]
fn batch_matches_single_queries() {
    let mut db = Mem::open(None, Metric::Euclidean).unwrap();
    for i in 0..6usize {
        db.add(i, vec![i as f32, (i * i) as f32], meta("p")).unwrap();
    }
    let queries: Vec<Vec<f32>> = vec![vec![0.0, 0.0], vec![3.0, 8.0], vec![5.0, 30.0]];
    let qbits: Vec<Vec<u32>> = queries.iter().map(|q| bits(q)).collect();
    let found: Vec<Vec<Neighbor>> = queries.iter().map(|q| db.candidates(q)).collect();
    let batch = db.db.search_batch(&qbits, 2, &found).unwrap();
    assert_eq!(batch.len(), 3);
    for (i, q) in queries.iter().enumerate() {
        let single = db.search(q, 2).unwrap();
        let a: Vec<(usize, u32)> = batch[i].iter().map(|r| (r.id, r.distance)).collect();
        let b: Vec<(usize, u32)> = single.iter().map(|r| (r.id, r.distance)).collect();
        assert_eq!(a, b);
    }
    let bad = vec![vec![0u32, 0], vec![0u32]];
    let found2 = vec![Vec::new(), Vec::new()];
    assert_eq!(db.db.search_batch(&bad, 2, &found2).unwrap_err(), DbError::DimensionMismatch);
}

#[test]
fn ranking_ties_and_duplicates() {
    let mut db = Mem::open(None, Metric::Euclidean).unwrap();
    for i in 0..4usize {
        db.add(i, vec![i as f32], meta("t")).unwrap();
    }
    let q = bits(&[0.0]);
    let found = vec![
        Neighbor { index: 3, distance: 7 },
        Neighbor { index: 1, distance: 7 },
        Neighbor { index: 1, distance: 7 },
        Neighbor { index: 2, distance: 1 },
        Neighbor { index: 99, distance: 0 },
    ];
    let r = db.db.search(&q, 10, &found).unwrap();
    let got: Vec<(usize, u32)> = r.iter().map(|x| (x.id, x.distance)).collect();
    assert_eq!(got, vec![(2, 1), (1, 7), (3, 7)]);
    let r = db.db.search(&q, 2, &found).unwrap();
    assert_eq!(r.len(), 2);
    let r = db.db.search(&q, 0, &found).unwrap();
    assert!(r.is_empty());
}

#[test]
fn beam_width_values() {
    let mut db = Mem::open(None, Metric::Euclidean).unwrap();
    for i in 0..40usize {
        db.add(i, vec![i as f32], meta("w")).unwrap();
    }
    let q = bits(&[0.0]);
    assert_eq!(db.db.beam_width(&q, 3).unwrap(), 50);
    assert_eq!(db.db.beam_width(&q, 30).unwrap(), 60);
    assert_eq!(db.db.beam_width(&q, 1000).unwrap(), 80);
    assert_eq!(db.db.beam_width(&bits(&[0.0, 1.0]), 3).unwrap_err(), DbError::DimensionMismatch);
}

#[test]
fn search_with_wrong_dimension_fails() {
    let mut db = Mem::open(None, Metric::Cosine).unwrap();
    db.add(1, vec![1.0, 2.0, 3.0], meta("a")).unwrap();
    assert_eq!(db.search(&[1.0, 2.0], 1).unwrap_err(), DbError::DimensionMismatch);
    assert_eq!(db.add(2, vec![], meta("b")).unwrap_err(), DbError::DimensionMismatch);
}

#[test]
fn first_add_fixes_dimension() {
    let mut db = Mem::open(None, Metric::Cosine).unwrap();
    assert_eq!(db.db.dimension(), 0);
    assert_eq!(db.add(1, vec![], meta("empty")).unwrap_err(), DbError::DimensionMismatch);
    db.add(1, vec![1.0, 2.0], meta("a")).unwrap();
    assert_eq!(db.db.dimension(), 2);
    assert_eq!(db.db.header().dim, 2);
    let reopened = Mem::open(Some(db.file.clone()), Metric::Cosine).unwrap();
    assert_eq!(reopened.db.dimension(), 2);
}
