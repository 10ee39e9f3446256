use complib::mex::Mex;
use std::collections::BTreeSet;

struct MexDebug {
    set: BTreeSet<i64>,
}

impl MexDebug {
    fn new() -> Self {
        MexDebug { set: BTreeSet::new() }
    }

    fn insert(&mut self, x: i64) {
        self.set.insert(x);
    }

    fn remove(&mut self, x: i64) {
        self.set.remove(&x);
    }

    fn insert_range(&mut self, f: i64, t: i64) {
        for k in f..t {
            self.set.insert(k);
        }
    }

    fn remove_range(&mut self, f: i64, t: i64) {
        for k in f..t {
            self.set.remove(&k);
        }
    }

    fn mex(&mut self, f: i64, t: i64) -> Option<i64> {
        for i in f..t {
            if !self.set.contains(&i) {
                return Some(i);
            }
        }
        None
    }
}

#[test]
fn mex_works() {
    let mut v = Mex::new();
    let mut v_dbg = MexDebug::new();
    for i in -5..0 {
        v.insert(i);
        v_dbg.insert(i);
    }
    for i in 5..10 {
        v.insert(i);
        v_dbg.insert(i);
    }
    for i in 15..20 {
        v.insert(i);
        v_dbg.insert(i);
    }
    for i in 18..22 {
        v.insert(i);
        v_dbg.insert(i);
    }

    for f in -10..30 {
        for t in -10..30 {
            assert_eq!(v.mex(f, t), v_dbg.mex(f, t));
        }
    }
    let remove_list = [-5, -4, -3, -2, -1, 6, 8, 9, 15, 20, 30, -4, -2];
    for &remove in &remove_list {
        v.remove(remove);
        v_dbg.remove(remove);
        for f in -10..30 {
            for t in -10..30 {
                assert_eq!(v.mex(f, t), v_dbg.mex(f, t));
            }
        }
    }
}

#[test]
fn mex_range_works() {
    let mut v = Mex::new();
    let mut v_dbg = MexDebug::new();

    let list = vec![
        (true, 1, 6),
        (true, 4, 9),
        (true, 1, 10),
        (false, 4, 8),
        (true, 5, 6),
        (false, 5, 9),
        (true, -1, 5),
        (true, -10, 10),
        (false, -10, 10),
    ];

    for (ty, f, t) in list {
        if ty {
            v.insert_range(f, t);
            v_dbg.insert_range(f, t);
        } else {
            v.remove_range(f, t);
            v_dbg.remove_range(f, t);
        }
        for f in -30..30 {
            for t in -30..30 {
                assert_eq!(v.mex(f, t), v_dbg.mex(f, t));
            }
        }
    }
}

#[test]
fn mex_edges() {
    let mut v = Mex::default();
    assert_eq!(v.mex(0, 0), None);
    assert_eq!(v.mex(3, 4), Some(3));
    v.insert_range(i64::MIN, 10);
    assert_eq!(v.mex(i64::MIN, 20), Some(10));
    v.remove(i64::MIN);
    assert_eq!(v.mex(i64::MIN, 20), Some(i64::MIN));
    v.insert(10);
    v.insert(10);
    assert_eq!(v.mex(0, 20), Some(11));
    assert_eq!(v.mex(0, 11), None);
}
