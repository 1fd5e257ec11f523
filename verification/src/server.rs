//! Server-wide state: startup options, the replication id, the info
//! sections, the keyspace, and the replica registry.

use vstd::prelude::*;
use crate::ascii::{
    lit_master, lit_master_repl_offset, lit_master_replid, lit_replication, lit_role, lit_slave,
    master_repl_offset_vec, master_replid_vec, master_vec, replication_vec, role_vec, slave_vec,
};
use crate::db::{bytes_eq, clone_bytes, Dbconf, RdbFile};
use crate::num::{dec_digits, find_space, find_space_exec, lemma_find_space, push_dec_u64};
use crate::replication::{Replication, ReplicationSet};

verus! {

/// A letter A-Z or a-z.
pub open spec fn is_alpha(b: u8) -> bool {
    (65 <= b <= 90) || (97 <= b <= 122)
}

/// Relies on rand: `rng()` hands out the thread generator, the
/// `Alphabetic` distribution samples a `u8` uniformly over A-Z and a-z,
/// and `take(n)` keeps `n` samples. Nothing is promised about which
/// letters come back.
#[verifier::external_body]
fn random_alphabetic_bytes(n: usize) -> (r: Vec<u8>)
    ensures
        r@.len() == n,
        forall|i: int| 0 <= i < r@.len() ==> is_alpha(r@[i]),
{
    rand::RngExt::sample_iter(rand::rng(), rand::distr::Alphabetic).take(n).collect()
}

/// Startup options, together with the replication id drawn once at
/// construction and the replication offset.
#[derive(Debug)]
pub struct ServerOpt {
    pub port: Vec<u8>,
    pub db_conf: Dbconf,
    pub replicaof: Option<(Vec<u8>, Vec<u8>)>,
    pub master_replid: Vec<u8>,
    pub master_repl_offset: u32,
    pub is_master: bool,
}

impl ServerOpt {
    /// Builds the options; the replication id is 40 random letters,
    /// stable for the life of this value.
    pub fn new(
        port: Vec<u8>,
        db_conf: Dbconf,
        replicaof: Option<(Vec<u8>, Vec<u8>)>,
        is_master: bool,
    ) -> (r: ServerOpt)
        ensures
            r.port == port,
            r.db_conf == db_conf,
            r.replicaof == replicaof,
            r.is_master == is_master,
            r.master_repl_offset == 0,
            r.master_replid@.len() == 40,
            forall|i: int| 0 <= i < r.master_replid@.len() ==> is_alpha(r.master_replid@[i]),
    {
        let replid = random_alphabetic_bytes(40);
        ServerOpt { port, db_conf, replicaof, master_replid: replid, master_repl_offset: 0, is_master }
    }

    pub fn get_master_replid(&self) -> (r: Vec<u8>)
        ensures
            r@ == self.master_replid@,
    {
        clone_bytes(&self.master_replid)
    }

    pub fn get_repl_offset(&self) -> (r: u32)
        ensures
            r == self.master_repl_offset,
    {
        self.master_repl_offset
    }

    pub fn change_repl_offset(&mut self, o: u32)
        ensures
            final(self).master_repl_offset == o,
            final(self).port == old(self).port,
            final(self).db_conf == old(self).db_conf,
            final(self).replicaof == old(self).replicaof,
            final(self).master_replid == old(self).master_replid,
            final(self).is_master == old(self).is_master,
    {
        self.master_repl_offset = o;
    }
}

/// The field lines of the replication info section.
pub open spec fn replication_fields(opt: ServerOpt) -> Seq<(Seq<u8>, Seq<u8>)> {
    seq![
        (lit_role(), if opt.is_master {
            lit_master()
        } else {
            lit_slave()
        }),
        (lit_master_replid(), opt.master_replid@),
        (lit_master_repl_offset(), dec_digits(opt.master_repl_offset as nat)),
    ]
}

/// Views of a list of byte-string pairs.
pub open spec fn pair_views(s: Seq<(Vec<u8>, Vec<u8>)>) -> Seq<(Seq<u8>, Seq<u8>)> {
    s.map_values(|e: (Vec<u8>, Vec<u8>)| (e.0@, e.1@))
}

/// Mathematical view of the info sections.
pub open spec fn sections_view(
    info: Seq<(Vec<u8>, Vec<(Vec<u8>, Vec<u8>)>)>,
) -> Seq<(Seq<u8>, Seq<(Seq<u8>, Seq<u8>)>)> {
    info.map_values(|s: (Vec<u8>, Vec<(Vec<u8>, Vec<u8>)>)| (s.0@, pair_views(s.1@)))
}

/// Everything one server process holds: the keyspace, the options, the
/// replica registry, and the info sections.
#[derive(Debug)]
pub struct Server {
    pub storage: RdbFile,
    pub option: ServerOpt,
    pub repl_set: ReplicationSet,
    pub info: Vec<(Vec<u8>, Vec<(Vec<u8>, Vec<u8>)>)>,
}

impl Server {
    pub open spec fn wf(self) -> bool {
        self.storage.wf()
    }

    /// Assembles a server around a loaded or fresh keyspace. The info
    /// holds one section, `replication`, describing this server's role.
    pub fn new(storage: RdbFile, option: ServerOpt) -> (r: Server)
        requires
            storage.wf(),
        ensures
            r.wf(),
            r.storage == storage,
            r.option == option,
            r.repl_set.ports() == Seq::<Seq<u8>>::empty(),
            !r.repl_set.ready,
            sections_view(r.info@) == seq![(lit_replication(), replication_fields(option))],
    {
        let mut fields: Vec<(Vec<u8>, Vec<u8>)> = Vec::new();
        let role_val = if option.is_master {
            master_vec()
        } else {
            slave_vec()
        };
        fields.push((role_vec(), role_val));
        fields.push((master_replid_vec(), option.get_master_replid()));
        let mut off: Vec<u8> = Vec::new();
        push_dec_u64(option.get_repl_offset() as u64, &mut off);
        fields.push((master_repl_offset_vec(), off));
        let mut info: Vec<(Vec<u8>, Vec<(Vec<u8>, Vec<u8>)>)> = Vec::new();
        proof {
            assert(pair_views(fields@) =~= replication_fields(option));
        }
        info.push((replication_vec(), fields));
        let r = Server { storage, option, repl_set: ReplicationSet::new(), info };
        proof {
            assert(sections_view(r.info@) =~= seq![(lit_replication(), replication_fields(option))]);
        }
        r
    }

    pub fn is_slave(&self) -> (r: bool)
        ensures
            r == !self.option.is_master,
    {
        !self.option.is_master
    }

    /// Fan-out runs only once at least one replica is registered and the
    /// registry is marked ready.
    pub fn is_repls_ready(&self) -> (r: bool)
        ensures
            r == (self.repl_set.ports().len() > 0 && self.repl_set.ready),
    {
        !self.repl_set.is_empty() && self.repl_set.is_ready()
    }

    /// Registers a replica, keyed by its announced port: a same-port
    /// registration replaces the old one.
    pub fn insert_a_repl(&mut self, a_repl: Replication)
        ensures
            final(self).repl_set.ports() == if old(self).repl_set.ports().contains(a_repl.port@) {
                old(self).repl_set.ports()
            } else {
                old(self).repl_set.ports().push(a_repl.port@)
            },
            final(self).repl_set.ready == old(self).repl_set.ready,
            final(self).storage == old(self).storage,
            final(self).option == old(self).option,
            final(self).info == old(self).info,
    {
        self.repl_set.add_a_repl(a_repl);
    }

    pub fn is_repl_exsits(&self, a_repl: &Replication) -> (r: bool)
        ensures
            r == self.repl_set.ports().contains(a_repl.port@),
    {
        self.repl_set.is_exsits(a_repl)
    }

    /// The fields of the section named (case-insensitively) `k`.
    pub fn get_a_info(&self, k: &[u8]) -> (r: Option<&Vec<(Vec<u8>, Vec<u8>)>>)
        ensures
            match r {
                Some(fields) => exists|i: int|
                    0 <= i < sections_view(self.info@).len() && crate::commands::lower_bytes(
                        (#[trigger] sections_view(self.info@)[i]).0,
                    ) == crate::commands::lower_bytes(k@) && pair_views(fields@)
                        == sections_view(self.info@)[i].1,
                None => forall|i: int|
                    0 <= i < sections_view(self.info@).len() ==> crate::commands::lower_bytes(
                        (#[trigger] sections_view(self.info@)[i]).0,
                    ) != crate::commands::lower_bytes(k@),
            },
    {
        let kl = crate::commands::to_lower(k);
        let mut i: usize = 0;
        while i < self.info.len()
            invariant
                i <= self.info@.len(),
                kl@ == crate::commands::lower_bytes(k@),
                forall|j: int|
                    0 <= j < i ==> crate::commands::lower_bytes(
                        (#[trigger] sections_view(self.info@)[j]).0,
                    ) != crate::commands::lower_bytes(k@),
            decreases self.info@.len() - i,
        {
            let name_l = crate::commands::to_lower(self.info[i].0.as_slice());
            if bytes_eq(name_l.as_slice(), kl.as_slice()) {
                assert(crate::commands::lower_bytes(sections_view(self.info@)[i as int].0)
                    == crate::commands::lower_bytes(k@));
                return Some(&self.info[i].1);
            }
            assert(crate::commands::lower_bytes(sections_view(self.info@)[i as int].0)
                != crate::commands::lower_bytes(k@));
            i = i + 1;
        }
        None
    }

    pub fn get_all_info(&self) -> (r: &Vec<(Vec<u8>, Vec<(Vec<u8>, Vec<u8>)>)>)
        ensures
            r == self.info,
    {
        &self.info
    }
}


/// The launcher's arguments were unusable.
#[derive(Debug, Clone, Copy, PartialEq, Eq, Structural)]
pub enum ConfigError {
    BadReplicaof,
}


/// A usable replica-of argument: empty (run as master), or a host, one
/// space, and a numeric port.
pub open spec fn spec_parse_replicaof(s: Seq<u8>) -> Result<
    Option<(Seq<u8>, Seq<u8>)>,
    ConfigError,
> {
    if s.len() == 0 {
        Result::Ok(Option::None)
    } else {
        let sp = find_space(s, 0);
        if sp <= 0 || sp + 1 >= s.len() {
            Result::Err(ConfigError::BadReplicaof)
        } else {
            let host = s.subrange(0, sp);
            let port = s.subrange(sp + 1, s.len() as int);
            if crate::num::all_digits(port) && crate::num::dec_value(port) <= u32::MAX {
                Result::Ok(Option::Some((host, port)))
            } else {
                Result::Err(ConfigError::BadReplicaof)
            }
        }
    }
}




/// Parses the replica-of launch argument. A non-numeric port is a
/// configuration error and startup is to be aborted.
pub fn parse_replicaof(s: &[u8]) -> (r: Result<Option<(Vec<u8>, Vec<u8>)>, ConfigError>)
    ensures
        match r {
            Result::Ok(Option::None) => spec_parse_replicaof(s@) == Result::<
                Option<(Seq<u8>, Seq<u8>)>,
                ConfigError,
            >::Ok(Option::None),
            Result::Ok(Option::Some((h, p))) => spec_parse_replicaof(s@) == Result::<
                Option<(Seq<u8>, Seq<u8>)>,
                ConfigError,
            >::Ok(Option::Some((h@, p@))),
            Result::Err(e) => spec_parse_replicaof(s@) == Result::<
                Option<(Seq<u8>, Seq<u8>)>,
                ConfigError,
            >::Err(e),
        },
{
    if s.len() == 0 {
        return Ok(None);
    }
    let sp = find_space_exec(s);
    proof {
        lemma_find_space(s@, 0);
    }
    match sp {
        None => {
            assert(find_space(s@, 0) == -1);
            Err(ConfigError::BadReplicaof)
        },
        Some(k) => {
            assert(find_space(s@, 0) == k as int);
            if k == 0 || k + 1 >= s.len() {
                return Err(ConfigError::BadReplicaof);
            }
            let port_slice = vstd::slice::slice_subrange(s, k + 1, s.len());
            match crate::num::parse_dec_u64(port_slice) {
                Some(v) => {
                    if v <= u32::MAX as u64 {
                        let host = vstd::slice::slice_to_vec(
                            vstd::slice::slice_subrange(s, 0, k),
                        );
                        let port = vstd::slice::slice_to_vec(port_slice);
                        Ok(Some((host, port)))
                    } else {
                        Err(ConfigError::BadReplicaof)
                    }
                },
                None => Err(ConfigError::BadReplicaof),
            }
        },
    }
}

} // verus!

