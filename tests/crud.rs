use vdb::{DbError, Metadata, Metric, Neighbor, Params, SearchResult, VectorDB};

/// The database with its log file kept in memory and an exhaustive index.
struct Mem {
    db: VectorDB,
    file: Vec<u8>,
}

fn bits(v: &[f32]) -> Vec<u32> {
    v.iter().map(|x| x.to_bits()).collect()
}

fn floats(v: &[u32]) -> Vec<f32> {
    v.iter().map(|x| f32::from_bits(*x)).collect()
}

fn distance(metric: Metric, a: &[f32], b: &[f32]) -> u32 {
    match metric {
        Metric::Cosine => {
            let dot: f32 = a.iter().zip(b.iter()).map(|(x, y)| x * y).sum();
            let na: f32 = a.iter().map(|x| x * x).sum::<f32>().sqrt();
            let nb: f32 = b.iter().map(|x| x * x).sum::<f32>().sqrt();
            let cos = if na < 1e-6 || nb < 1e-6 { 0.0 } else { dot / (na * nb) };
            (1.0 - cos).max(0.0f32).to_bits()
        }
        Metric::Euclidean => {
            let sum: f32 = a.iter().zip(b.iter()).map(|(x, y)| (x - y).powi(2)).sum();
            sum.sqrt().to_bits()
        }
    }
}

impl Mem {
    fn open(file: Option<Vec<u8>>, metric: Metric) -> Result<Mem, DbError> {
        match file {
            Some(file) => {
                let db = VectorDB::open(&file, metric)?;
                Ok(Mem { db, file })
            }
            None => {
                let (db, file) = VectorDB::create(metric, Params::default());
                Ok(Mem { db, file })
            }
        }
    }

    fn add(&mut self, id: usize, v: Vec<f32>, md: Metadata) -> Result<(), DbError> {
        let a = self.db.add(id, bits(&v), md)?;
        if let Some(h) = a.header {
            self.file[..h.len()].copy_from_slice(&h);
        }
        self.file.extend_from_slice(&a.record);
        Ok(())
    }

    fn remove(&mut self, id: usize) -> Result<(), DbError> {
        self.file = self.db.remove(id)?;
        Ok(())
    }

    fn update(&mut self, id: usize, v: Vec<f32>, md: Metadata) -> Result<(), DbError> {
        self.file = self.db.update(id, bits(&v), md)?;
        Ok(())
    }

    fn candidates(&self, q: &[f32]) -> Vec<Neighbor> {
        let metric = self.db.metric();
        self.db
            .entries()
            .iter()
            .enumerate()
            .map(|(i, e)| Neighbor { index: i, distance: distance(metric, q, &floats(&e.vector)) })
            .collect()
    }

    fn search(&self, q: &[f32], k: usize) -> Result<Vec<SearchResult>, DbError> {
        let qb = bits(q);
        self.db.beam_width(&qb, k)?;
        self.db.search(&qb, k, &self.candidates(q))
    }
}

fn meta(label: &str) -> Metadata {
    Metadata { label: label.into(), description: None }
}

#[test]
fn remove_update() {
    let mut db = Mem::open(None, Metric::Cosine).unwrap();
    db.add(1, vec![0.0, 0.0], Metadata { label: "a".into(), description: None }).unwrap();
    db.add(2, vec![1.0, 1.0], Metadata { label: "b".into(), description: None }).unwrap();
    db.remove(1).unwrap();
    let results = db.search(&vec![1.0, 1.0], 2).unwrap();
    assert_eq!(results[0].id, 2);
    db.update(2, vec![0.0, 1.0], Metadata { label: "c".into(), description: None }).unwrap();
    let results = db.search(&vec![0.0, 1.0], 1).unwrap();
    assert_eq!(results[0].id, 2);
}

#[test]
fn remove_unknown_id_is_not_found() {
    let mut db = Mem::open(None, Metric::Euclidean).unwrap();
    db.add(1, vec![1.0], meta("a")).unwrap();
    let file = db.file.clone();
    assert_eq!(db.remove(7).unwrap_err(), DbError::NotFound);
    assert_eq!(db.file, file);
    db.remove(1).unwrap();
    assert_eq!(db.remove(1).unwrap_err(), DbError::NotFound);
}

#[test]
fn update_errors() {
    let mut db = Mem::open(None, Metric::Euclidean).unwrap();
    db.add(1, vec![1.0, 2.0], meta("a")).unwrap();
    assert_eq!(db.update(1, vec![1.0], meta("b")).unwrap_err(), DbError::DimensionMismatch);
    assert_eq!(db.update(9, vec![1.0, 1.0], meta("b")).unwrap_err(), DbError::NotFound);
    assert_eq!(db.db.entries()[0].metadata.label, "a");
}

#[test]
fn removed_id_never_returned() {
    let mut db = Mem::open(None, Metric::Euclidean).unwrap();
    for i in 0..5usize {
        db.add(i, vec![i as f32, 0.0], meta("x")).unwrap();
    }
    db.remove(2).unwrap();
    let results = db.search(&[2.0, 0.0], 100).unwrap();
    assert_eq!(results.len(), 4);
    assert!(results.iter().all(|r| r.id != 2));
    let ids: Vec<usize> = results.iter().map(|r| r.id).collect();
    assert_eq!(ids, vec![1, 3, 0, 4]);
}

#[test]
fn compacted_file_replays_live_entries() {
    let mut db = Mem::open(None, Metric::Euclidean).unwrap();
    db.add(1, vec![1.0, 0.0], meta("a")).unwrap();
    db.add(2, vec![0.0, 1.0], meta("b")).unwrap();
    db.add(3, vec![1.0, 1.0], meta("c")).unwrap();
    db.remove(2).unwrap();
    db.update(3, vec![5.0, 5.0], meta("z")).unwrap();
    let reopened = Mem::open(Some(db.file.clone()), Metric::Euclidean).unwrap();
    let entries = reopened.db.entries();
    assert_eq!(entries.len(), 2);
    assert_eq!(entries[0].id, 1);
    assert_eq!(entries[1].id, 3);
    assert_eq!(floats(&entries[1].vector), vec![5.0, 5.0]);
    assert_eq!(entries[1].metadata.label, "z");
    assert!(entries.iter().all(|e| !e.deleted));
    // the id may be reused once removed
    let mut db2 = reopened;
    db2.add(2, vec![3.0, 3.0], meta("again")).unwrap();
    assert_eq!(db2.db.entries().len(), 3);
}

#[test]
fn reopen_gives_same_results() {
    let mut db = Mem::open(None, Metric::Cosine).unwrap();
    let vs = [[1.0, 0.0, 0.5], [0.2, 0.9, 0.1], [0.3, 0.3, 0.3], [-1.0, 0.5, 2.0]];
    for (i, v) in vs.iter().enumerate() {
        db.add(10 + i, v.to_vec(), meta("v")).unwrap();
    }
    let reopened = Mem::open(Some(db.file.clone()), Metric::Cosine).unwrap();
    for q in [[1.0, 0.0, 0.0], [0.0, 1.0, 0.0], [0.5, 0.5, 0.5]] {
        let a: Vec<(usize, u32)> = db.search(&q, 3).unwrap().iter().map(|r| (r.id, r.distance)).collect();
        let b: Vec<(usize, u32)> =
            reopened.search(&q, 3).unwrap().iter().map(|r| (r.id, r.distance)).collect();
        assert_eq!(a, b);
    }
}
