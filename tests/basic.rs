use vdb::{DbError, Metadata, Metric, Neighbor, Params, SearchResult, VectorDB};

/// The database with its log file kept in memory and an exhaustive index.
struct Mem {
    db: VectorDB,
    file: Vec<u8>,
}

fn bits(v: &[f32]) -> Vec<u32> {
    v.iter().map(|x| x.to_bits()).collect()
}

fn floats(v: &[u32]) -> Vec<f32> {
    v.iter().map(|x| f32::from_bits(*x)).collect()
}

fn distance(metric: Metric, a: &[f32], b: &[f32]) -> u32 {
    match metric {
        Metric::Cosine => {
            let dot: f32 = a.iter().zip(b.iter()).map(|(x, y)| x * y).sum();
            let na: f32 = a.iter().map(|x| x * x).sum::<f32>().sqrt();
            let nb: f32 = b.iter().map(|x| x * x).sum::<f32>().sqrt();
            let cos = if na < 1e-6 || nb < 1e-6 { 0.0 } else { dot / (na * nb) };
            (1.0 - cos).max(0.0f32).to_bits()
        }
        Metric::Euclidean => {
            let sum: f32 = a.iter().zip(b.iter()).map(|(x, y)| (x - y).powi(2)).sum();
            sum.sqrt().to_bits()
        }
    }
}

impl Mem {
    fn open(file: Option<Vec<u8>>, metric: Metric) -> Result<Mem, DbError> {
        match file {
            Some(file) => {
                let db = VectorDB::open(&file, metric)?;
                Ok(Mem { db, file })
            }
            None => {
                let (db, file) = VectorDB::create(metric, Params::default());
                Ok(Mem { db, file })
            }
        }
    }

    fn add(&mut self, id: usize, v: Vec<f32>, md: Metadata) -> Result<(), DbError> {
        let a = self.db.add(id, bits(&v), md)?;
        if let Some(h) = a.header {
            self.file[..h.len()].copy_from_slice(&h);
        }
        self.file.extend_from_slice(&a.record);
        Ok(())
    }

    fn remove(&mut self, id: usize) -> Result<(), DbError> {
        self.file = self.db.remove(id)?;
        Ok(())
    }

    fn update(&mut self, id: usize, v: Vec<f32>, md: Metadata) -> Result<(), DbError> {
        self.file = self.db.update(id, bits(&v), md)?;
        Ok(())
    }

    fn candidates(&self, q: &[f32]) -> Vec<Neighbor> {
        let metric = self.db.metric();
        self.db
            .entries()
            .iter()
            .enumerate()
            .map(|(i, e)| Neighbor { index: i, distance: distance(metric, q, &floats(&e.vector)) })
            .collect()
    }

    fn search(&self, q: &[f32], k: usize) -> Result<Vec<SearchResult>, DbError> {
        let qb = bits(q);
        self.db.beam_width(&qb, k)?;
        self.db.search(&qb, k, &self.candidates(q))
    }
}

fn meta(label: &str) -> Metadata {
    Metadata { label: label.into(), description: None }
}

#[test]
fn basic_basic_usage() {
    let file;
    {
        let mut db = Mem::open(None, Metric::Cosine).unwrap();
        let vector = vec![0.1, 0.2, 0.3, 0.4];
        let metadata = Metadata { label: "sample".into(), description: Some("desc".into()) };
        db.add(1, vector.clone(), metadata.clone()).unwrap();
        let results = db.search(&vector, 1).unwrap();
        assert_eq!(results[0].id, 1);
        assert_eq!(results[0].metadata.label, metadata.label);
        file = db.file.clone();
    }
    {
        let db = Mem::open(Some(file), Metric::Cosine).unwrap();
        let query = vec![0.1, 0.2, 0.3, 0.4];
        let results = db.search(&query, 1).unwrap();
        assert_eq!(results[0].id, 1);
    }
}

#[test]
fn lib_basic_usage() {
    let file;
    {
        let mut db = Mem::open(None, Metric::Cosine).unwrap();
        let vector = vec![0.1, 0.2, 0.3, 0.4];
        let metadata = Metadata {
            label: "sample".to_string(),
            description: Some("これはサンプルです".to_string()),
        };
        db.add(1, vector.clone(), metadata.clone()).unwrap();
        let results = db.search(&vector, 1).unwrap();
        assert_eq!(results[0].id, 1);
        assert_eq!(results[0].metadata.label, metadata.label);
        file = db.file.clone();
    }
    {
        let db = Mem::open(Some(file), Metric::Cosine).unwrap();
        let query = vec![0.1, 0.2, 0.3, 0.4];
        let results = db.search(&query, 1).unwrap();
        assert_eq!(results[0].id, 1);
        assert_eq!(results[0].metadata.description.as_deref(), Some("これはサンプルです"));
    }
}

#[test]
fn duplicate_id() {
    let mut db = Mem::open(None, Metric::Cosine).unwrap();
    let v = vec![0.0, 0.0, 0.0];
    let m = Metadata { label: "a".into(), description: None };
    db.add(1, v.clone(), m.clone()).unwrap();
    let size = db.file.len();
    let err = db.add(1, v, m).unwrap_err();
    assert_eq!(err, DbError::DuplicateId);
    assert_eq!(db.file.len(), size);
    assert_eq!(db.db.entries().len(), 1);
}

#[test]
fn dimension_mismatch() {
    let mut db = Mem::open(None, Metric::Cosine).unwrap();
    db.add(1, vec![0.0, 0.0, 0.0], Metadata { label: "a".into(), description: None }).unwrap();
    let err = db.add(2, vec![0.0, 0.0], Metadata { label: "b".into(), description: None }).unwrap_err();
    assert_eq!(err, DbError::DimensionMismatch);
    assert_eq!(db.db.dimension(), 3);
    assert_eq!(db.db.entries().len(), 1);
}

#[test]
fn metric_mismatch() {
    let mut db = Mem::open(None, Metric::Cosine).unwrap();
    db.add(1, vec![0.0, 0.0, 0.0], Metadata { label: "a".into(), description: None }).unwrap();
    let file = db.file.clone();
    let err = Mem::open(Some(file.clone()), Metric::Euclidean);
    assert!(err.is_err());
    assert_eq!(err.err().unwrap(), DbError::MetricMismatch);
    assert_eq!(db.file, file);
}
