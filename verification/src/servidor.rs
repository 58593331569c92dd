//! The decisions of the blind chat relay: it registers clients' public keys,
//! hands them out on request, routes encrypted messages it never reads, and
//! tells every client who is online.
//!
//! Each step takes the shared registry, the state of one connection and an
//! event of that connection, updates them, and returns the messages to send and
//! the connections to send them to.
use crate::texto::{anexar, string_push};
use dashmap::DashMap;
use vstd::prelude::*;

verus! {

// ------------------------------------------------------------------
// Messages
// ------------------------------------------------------------------

/// A client's RSA public key as the protocol carries it.
#[derive(Clone, Copy, Debug, PartialEq, Eq, Structural)]
pub struct PublicKeyDto {
    pub n: u64,
    pub e: u64,
}

/// What a client sends to the relay.
#[derive(Debug)]
pub enum ClientMsg {
    /// Registers the client's name and public key.
    Register { username: String, public_key: PublicKeyDto },
    /// Asks for another client's public key.
    GetKey { target_username: String },
    /// An encrypted message for another client, relayed untouched.
    SendMessage {
        to: String,
        encrypted_session_key: String,
        encrypted_payload: String,
        mac: String,
    },
}

/// What the relay sends to a client.
#[derive(Debug)]
pub enum ServerMsg {
    /// The registration succeeded; the id given to the client.
    Registered { user_id: String },
    /// The answer to a key request.
    KeyResponse { username: String, public_key: PublicKeyDto },
    /// An encrypted message from another client.
    IncomingMessage {
        from: String,
        encrypted_session_key: String,
        encrypted_payload: String,
        mac: String,
    },
    /// The clients online.
    UserList { users: Vec<String> },
    /// An error.
    Error { message: String },
}

/// What happens on a connection.
#[derive(Debug)]
pub enum Evento {
    /// The client sent a message that reads as one of the protocol.
    Mensagem(ClientMsg),
    /// The client sent text that is not a message of the protocol; what the
    /// JSON reader said of it.
    JsonInvalido(String),
    /// The connection closed.
    Desconectou,
}

/// A message to send, and the connection to send it on.
#[derive(Debug)]
pub struct Envio {
    pub destino: u64,
    pub msg: ServerMsg,
}

/// A registered client: its name, its key, and the connection it is on.
#[derive(Debug)]
pub struct UserEntry {
    pub username: String,
    pub public_key: PublicKeyDto,
    pub conexao: u64,
}

/// A registered name and the connection it is on.
#[derive(Debug)]
pub struct NomeConexao {
    pub nome: String,
    pub conexao: u64,
}

/// The state of one connection: its number, and the names it registered, in
/// order; it speaks as the last of them.
#[derive(Debug)]
pub struct Conexao {
    pub id: u64,
    pub nomes: Vec<String>,
}

// ------------------------------------------------------------------
// Views
// ------------------------------------------------------------------

/// A client message, as values.
pub enum ClientMsgV {
    Register(Seq<char>, u64, u64),
    GetKey(Seq<char>),
    SendMessage(Seq<char>, Seq<char>, Seq<char>, Seq<char>),
}

/// A relay message, as values.
pub enum ServerMsgV {
    Registered(Seq<char>),
    KeyResponse(Seq<char>, u64, u64),
    IncomingMessage(Seq<char>, Seq<char>, Seq<char>, Seq<char>),
    UserList(Seq<Seq<char>>),
    Error(Seq<char>),
}

/// An event, as values.
pub enum EventoV {
    Mensagem(ClientMsgV),
    JsonInvalido(Seq<char>),
    Desconectou,
}

impl View for ClientMsg {
    type V = ClientMsgV;

    open spec fn view(&self) -> ClientMsgV {
        match self {
            ClientMsg::Register { username, public_key } => ClientMsgV::Register(
                username@,
                public_key.n,
                public_key.e,
            ),
            ClientMsg::GetKey { target_username } => ClientMsgV::GetKey(target_username@),
            ClientMsg::SendMessage { to, encrypted_session_key, encrypted_payload, mac } =>
                ClientMsgV::SendMessage(to@, encrypted_session_key@, encrypted_payload@, mac@),
        }
    }
}

impl View for ServerMsg {
    type V = ServerMsgV;

    open spec fn view(&self) -> ServerMsgV {
        match self {
            ServerMsg::Registered { user_id } => ServerMsgV::Registered(user_id@),
            ServerMsg::KeyResponse { username, public_key } => ServerMsgV::KeyResponse(
                username@,
                public_key.n,
                public_key.e,
            ),
            ServerMsg::IncomingMessage { from, encrypted_session_key, encrypted_payload, mac } =>
                ServerMsgV::IncomingMessage(
                from@,
                encrypted_session_key@,
                encrypted_payload@,
                mac@,
            ),
            ServerMsg::UserList { users } => ServerMsgV::UserList(
                users@.map_values(|u: String| u@),
            ),
            ServerMsg::Error { message } => ServerMsgV::Error(message@),
        }
    }
}

impl View for Evento {
    type V = EventoV;

    open spec fn view(&self) -> EventoV {
        match self {
            Evento::Mensagem(m) => EventoV::Mensagem(m@),
            Evento::JsonInvalido(d) => EventoV::JsonInvalido(d@),
            Evento::Desconectou => EventoV::Desconectou,
        }
    }
}

/// The messages to send, as (connection, message) pairs.
pub open spec fn envios_view(envios: Seq<Envio>) -> Seq<(u64, ServerMsgV)> {
    envios.map_values(|e: Envio| (e.destino, e.msg@))
}

/// The names a connection registered, as values.
pub open spec fn nomes_view(nomes: Seq<String>) -> Seq<Seq<char>> {
    nomes.map_values(|s: String| s@)
}

/// A registry entry, as values: the name, the key's `n` and `e`, the connection.
pub type EntradaV = (Seq<char>, u64, u64, u64);

// ------------------------------------------------------------------
// The registry, a `DashMap` of the `dashmap` crate
// ------------------------------------------------------------------

#[verifier::external_type_specification]
#[verifier::external_body]
#[verifier::reject_recursive_types(K)]
#[verifier::reject_recursive_types(V)]
#[verifier::reject_recursive_types(S)]
pub struct ExDashMap<K, V, S>(DashMap<K, V, S>);

/// The registry of the clients online, keyed by name.
pub type Registro = DashMap<String, UserEntry>;

/// The entries of a registry: each name with the entry stored under it.
pub uninterp spec fn registro(m: Registro) -> Map<Seq<char>, EntradaV>;

/// `DashMap::new`: an empty map.
#[verifier::external_body]
fn registro_novo() -> (novo: Registro)
    ensures
        registro(novo).dom() == Set::<Seq<char>>::empty(),
{
    DashMap::new()
}

/// `DashMap::contains_key`: whether the map has an entry under the name.
#[verifier::external_body]
fn registro_contem(m: &Registro, nome: &String) -> (r: bool)
    ensures
        r == registro(*m).dom().contains(nome@),
{
    m.contains_key(nome)
}

/// `DashMap::get`: the values of the entry under the name, if there is one.
#[verifier::external_body]
fn registro_obter(m: &Registro, nome: &String) -> (r: Option<(String, u64, u64, u64)>)
    ensures
        r is Some <==> registro(*m).dom().contains(nome@),
        r matches Some(v) ==> (v.0@, v.1, v.2, v.3) == registro(*m)[nome@],
{
    match m.get(nome) {
        Some(r) => Some((r.username.clone(), r.public_key.n, r.public_key.e, r.conexao)),
        None => None,
    }
}

/// `DashMap::insert`: stores the entry under the name, replacing any entry there.
#[verifier::external_body]
fn registro_inserir(m: &mut Registro, nome: String, entrada: UserEntry)
    ensures
        registro(*final(m)) == registro(*old(m)).insert(
            nome@,
            (entrada.username@, entrada.public_key.n, entrada.public_key.e, entrada.conexao),
        ),
{
    m.insert(nome, entrada);
}

/// `DashMap::remove`: removes the entry under the name, if any.
#[verifier::external_body]
fn registro_remover(m: &mut Registro, nome: &String)
    ensures
        registro(*final(m)) == registro(*old(m)).remove(nome@),
{
    m.remove(nome);
}

/// `ks` lists each name of the registry once, in some order.
pub open spec fn lista_nomes(reg: Map<Seq<char>, EntradaV>, ks: Seq<Seq<char>>) -> bool {
    &&& ks.no_duplicates()
    &&& forall|i: int| 0 <= i < ks.len() ==> reg.dom().contains(#[trigger] ks[i])
    &&& forall|k: Seq<char>| reg.dom().contains(k) ==> ks.contains(k)
}

/// `lista` holds each name of the registry once, with the entry's connection.
pub open spec fn lista_entradas(reg: Map<Seq<char>, EntradaV>, lista: Seq<NomeConexao>) -> bool {
    exists|ks: Seq<Seq<char>>|
        {
            &&& lista_nomes(reg, ks)
            &&& lista.len() == ks.len()
            &&& forall|i: int|
                0 <= i < ks.len() ==> (#[trigger] lista[i]).nome@ == reg[ks[i]].0
                    && lista[i].conexao == reg[ks[i]].3
        }
}

/// `DashMap::iter`: each entry's name and connection, once each, in the
/// order the map's shards and buckets give (which this does not state).
#[verifier::external_body]
fn registro_entradas(m: &Registro) -> (lista: Vec<NomeConexao>)
    ensures
        lista@.len() == registro(*m).dom().len(),
        lista_entradas(registro(*m), lista@),
{
    m.iter().map(|e| NomeConexao { nome: e.value().username.clone(), conexao: e.value().conexao }).collect()
}

/// `id` has the shape of a version-4 UUID written out in hyphenated
/// lowercase form: 36 characters, hyphens at 8, 13, 18 and 23, lowercase hex
/// digits elsewhere, the version digit `4` at 14, and a variant digit of
/// `8`, `9`, `a` or `b` at 19.
pub open spec fn forma_uuid_v4(id: Seq<char>) -> bool {
    &&& id.len() == 36
    &&& forall|i: int|
        0 <= i < 36 ==> if i == 8 || i == 13 || i == 18 || i == 23 {
            #[trigger] id[i] == '-'
        } else {
            ('0' <= id[i] <= '9') || ('a' <= id[i] <= 'f')
        }
    &&& id[14] == '4'
    &&& (id[19] == '8' || id[19] == '9' || id[19] == 'a' || id[19] == 'b')
}

/// `Uuid::new_v4().to_string()`: a random version-4 UUID in its hyphenated
/// lowercase form; which one, chance decides, so only its shape is stated.
#[verifier::external_body]
fn novo_user_id() -> (id: String)
    ensures
        forma_uuid_v4(id@),
{
    uuid::Uuid::new_v4().to_string()
}

// ------------------------------------------------------------------
// The step
// ------------------------------------------------------------------

/// `envios` tells every registered client the names online: one `UserList`
/// for each entry, sent to its connection, all with the same list of names.
pub open spec fn aviso_usuarios(reg: Map<Seq<char>, EntradaV>, envios: Seq<(u64, ServerMsgV)>) -> bool {
    exists|ks: Seq<Seq<char>>|
        {
            &&& lista_nomes(reg, ks)
            &&& envios.len() == ks.len()
            &&& forall|i: int|
                0 <= i < ks.len() ==> #[trigger] envios[i] == (
                    reg[ks[i]].3,
                    ServerMsgV::UserList(ks.map_values(|k: Seq<char>| reg[k].0)),
                )
        }
}

/// Each entry is stored under its own name, and there are finitely many.
pub open spec fn registro_bem_formado(reg: Map<Seq<char>, EntradaV>) -> bool {
    &&& reg.dom().finite()
    &&& forall|k: Seq<char>| reg.dom().contains(k) ==> (#[trigger] reg[k]).0 == k
}

/// Whether the event is a registration request.
pub open spec fn e_registro(ev: EventoV) -> bool {
    ev matches EventoV::Mensagem(ClientMsgV::Register(_, _, _))
}

/// What a step does to the registry and to the names of the connection: a
/// registration of a free name adds it to both; a close removes all the
/// connection's names from the registry and forgets them; nothing else
/// changes either.
pub open spec fn efeito(
    reg0: Map<Seq<char>, EntradaV>,
    nomes0: Seq<Seq<char>>,
    conn: u64,
    ev: EventoV,
) -> (Map<Seq<char>, EntradaV>, Seq<Seq<char>>) {
    match ev {
        EventoV::Desconectou => (reg0.remove_keys(nomes0.to_set()), seq![]),
        EventoV::Mensagem(ClientMsgV::Register(u, n, e)) => if reg0.dom().contains(u) {
            (reg0, nomes0)
        } else {
            (reg0.insert(u, (u, n, e, conn)), nomes0.push(u))
        },
        _ => (reg0, nomes0),
    }
}

/// The messages a step sends: from the registry `reg0` and the names
/// `nomes0` of connection `conn`, the event `ev` (and, for a registration, the
/// id `uid`) answers with `envios`, where `reg1` is the registry after it.
pub open spec fn respostas(
    reg0: Map<Seq<char>, EntradaV>,
    nomes0: Seq<Seq<char>>,
    conn: u64,
    ev: EventoV,
    uid: Seq<char>,
    reg1: Map<Seq<char>, EntradaV>,
    envios: Seq<(u64, ServerMsgV)>,
) -> bool {
    match ev {
        EventoV::JsonInvalido(d) => envios == seq![(conn, ServerMsgV::Error("JSON inválido: "@ + d))],
        EventoV::Desconectou => if nomes0.len() > 0 {
            aviso_usuarios(reg1, envios)
        } else {
            envios.len() == 0
        },
        EventoV::Mensagem(ClientMsgV::Register(u, n, e)) => if reg0.dom().contains(u) {
            envios == seq![(conn, ServerMsgV::Error("Username já em uso."@))]
        } else {
            &&& envios.len() >= 1
            &&& envios[0] == (conn, ServerMsgV::Registered(uid))
            &&& aviso_usuarios(reg1, envios.drop_first())
        },
        EventoV::Mensagem(ClientMsgV::GetKey(t)) => envios == if reg0.dom().contains(t) {
            seq![(conn, ServerMsgV::KeyResponse(reg0[t].0, reg0[t].1, reg0[t].2))]
        } else {
            seq![(conn, ServerMsgV::Error("Usuário '"@ + t + "' não encontrado."@))]
        },
        EventoV::Mensagem(ClientMsgV::SendMessage(to, k, p, mac)) => envios == if nomes0.len() == 0 {
            seq![(conn, ServerMsgV::Error("Você precisa se registrar primeiro."@))]
        } else if reg0.dom().contains(to) {
            seq![(reg0[to].3, ServerMsgV::IncomingMessage(nomes0.last(), k, p, mac))]
        } else {
            seq![(conn, ServerMsgV::Error("Destinatário '"@ + to + "' não está online."@))]
        },
    }
}

/// One step of a connection: from the registry `reg0` and the connection's
/// names `nomes0`, the event `ev` on connection `conn` (and, for a
/// registration, the id `uid`) leads to the registry `reg1`, the names
/// `nomes1`, and the messages `envios`.
pub open spec fn spec_passo(
    reg0: Map<Seq<char>, EntradaV>,
    nomes0: Seq<Seq<char>>,
    conn: u64,
    ev: EventoV,
    uid: Seq<char>,
    reg1: Map<Seq<char>, EntradaV>,
    nomes1: Seq<Seq<char>>,
    envios: Seq<(u64, ServerMsgV)>,
) -> bool {
    &&& (reg1, nomes1) == efeito(reg0, nomes0, conn, ev)
    &&& respostas(reg0, nomes0, conn, ev, uid, reg1, envios)
}

// ------------------------------------------------------------------
// Laws of the relay
// ------------------------------------------------------------------

/// Removing names keeps the registry well formed.
proof fn lemma_remove_keys_bem_formado(reg: Map<Seq<char>, EntradaV>, s: Set<Seq<char>>)
    requires
        registro_bem_formado(reg),
    ensures
        registro_bem_formado(reg.remove_keys(s)),
{
    assert(reg.remove_keys(s).dom() =~= reg.dom().difference(s));
    vstd::set::axiom_set_difference_finite(reg.dom(), s);
}

/// Every step keeps the registry well formed: each entry stays stored under
/// its own name, and there are finitely many.
pub proof fn lemma_passo_bem_formado(
    reg0: Map<Seq<char>, EntradaV>,
    nomes0: Seq<Seq<char>>,
    conn: u64,
    ev: EventoV,
    uid: Seq<char>,
    reg1: Map<Seq<char>, EntradaV>,
    nomes1: Seq<Seq<char>>,
    envios: Seq<(u64, ServerMsgV)>,
)
    requires
        registro_bem_formado(reg0),
        spec_passo(reg0, nomes0, conn, ev, uid, reg1, nomes1, envios),
    ensures
        registro_bem_formado(reg1),
{
    if ev is Desconectou {
        lemma_remove_keys_bem_formado(reg0, nomes0.to_set());
    }
}

/// A registered name is safe from every other connection: no step of a
/// connection that did not register the name changes or removes its entry.
pub proof fn lemma_nome_protegido(
    reg0: Map<Seq<char>, EntradaV>,
    nomes0: Seq<Seq<char>>,
    conn: u64,
    ev: EventoV,
    uid: Seq<char>,
    reg1: Map<Seq<char>, EntradaV>,
    nomes1: Seq<Seq<char>>,
    envios: Seq<(u64, ServerMsgV)>,
    u: Seq<char>,
)
    requires
        reg0.dom().contains(u),
        !nomes0.contains(u),
        spec_passo(reg0, nomes0, conn, ev, uid, reg1, nomes1, envios),
    ensures
        reg1.dom().contains(u),
        reg1[u] == reg0[u],
{
}

/// A second registration of a name in use is refused, with an error to the
/// asking connection, and changes nothing.
pub proof fn lemma_nome_em_uso(
    reg0: Map<Seq<char>, EntradaV>,
    nomes0: Seq<Seq<char>>,
    conn: u64,
    u: Seq<char>,
    n: u64,
    e: u64,
    uid: Seq<char>,
    reg1: Map<Seq<char>, EntradaV>,
    nomes1: Seq<Seq<char>>,
    envios: Seq<(u64, ServerMsgV)>,
)
    requires
        reg0.dom().contains(u),
        spec_passo(reg0, nomes0, conn, EventoV::Mensagem(ClientMsgV::Register(u, n, e)), uid, reg1, nomes1, envios),
    ensures
        reg1 == reg0,
        nomes1 == nomes0,
        envios == seq![(conn, ServerMsgV::Error("Username já em uso."@))],
{
}

/// After a client registers a free name with a key, asking for that name's
/// key, on any connection, gives that key.
pub proof fn lemma_chave_registrada(
    reg0: Map<Seq<char>, EntradaV>,
    nomes0: Seq<Seq<char>>,
    conn: u64,
    u: Seq<char>,
    n: u64,
    e: u64,
    uid: Seq<char>,
    reg1: Map<Seq<char>, EntradaV>,
    nomes1: Seq<Seq<char>>,
    envios1: Seq<(u64, ServerMsgV)>,
    nomes2: Seq<Seq<char>>,
    conn2: u64,
    uid2: Seq<char>,
    reg2: Map<Seq<char>, EntradaV>,
    nomes3: Seq<Seq<char>>,
    envios2: Seq<(u64, ServerMsgV)>,
)
    requires
        !reg0.dom().contains(u),
        spec_passo(reg0, nomes0, conn, EventoV::Mensagem(ClientMsgV::Register(u, n, e)), uid, reg1, nomes1, envios1),
        spec_passo(reg1, nomes2, conn2, EventoV::Mensagem(ClientMsgV::GetKey(u)), uid2, reg2, nomes3, envios2),
    ensures
        envios1[0] == (conn, ServerMsgV::Registered(uid)),
        nomes1 == nomes0.push(u),
        envios2 == seq![(conn2, ServerMsgV::KeyResponse(u, n, e))],
        reg2 == reg1,
{
}

/// The relay is blind: after a client registers a free name on a connection,
/// a message to that name from a registered client goes, untouched and marked
/// with the name the sender speaks as, to that connection and nowhere else.
pub proof fn lemma_entrega(
    reg0: Map<Seq<char>, EntradaV>,
    nomes0: Seq<Seq<char>>,
    conn: u64,
    b: Seq<char>,
    n: u64,
    e: u64,
    uid: Seq<char>,
    reg1: Map<Seq<char>, EntradaV>,
    nomes1: Seq<Seq<char>>,
    envios1: Seq<(u64, ServerMsgV)>,
    nomes_a: Seq<Seq<char>>,
    conn_a: u64,
    chave: Seq<char>,
    carga: Seq<char>,
    mac: Seq<char>,
    uid2: Seq<char>,
    reg2: Map<Seq<char>, EntradaV>,
    nomes3: Seq<Seq<char>>,
    envios2: Seq<(u64, ServerMsgV)>,
)
    requires
        !reg0.dom().contains(b),
        nomes_a.len() > 0,
        spec_passo(reg0, nomes0, conn, EventoV::Mensagem(ClientMsgV::Register(b, n, e)), uid, reg1, nomes1, envios1),
        spec_passo(
            reg1,
            nomes_a,
            conn_a,
            EventoV::Mensagem(ClientMsgV::SendMessage(b, chave, carga, mac)),
            uid2,
            reg2,
            nomes3,
            envios2,
        ),
    ensures
        envios2 == seq![(conn, ServerMsgV::IncomingMessage(nomes_a.last(), chave, carga, mac))],
        reg2 == reg1,
{
}

/// When a connection closes, every name it registered leaves the registry,
/// the other names stay, and a later request for one of its names' keys is
/// answered with an error.
pub proof fn lemma_desconexao(
    reg0: Map<Seq<char>, EntradaV>,
    nomes0: Seq<Seq<char>>,
    u: Seq<char>,
    conn: u64,
    uid: Seq<char>,
    reg1: Map<Seq<char>, EntradaV>,
    nomes1: Seq<Seq<char>>,
    envios1: Seq<(u64, ServerMsgV)>,
    nomes2: Seq<Seq<char>>,
    conn2: u64,
    uid2: Seq<char>,
    reg2: Map<Seq<char>, EntradaV>,
    nomes3: Seq<Seq<char>>,
    envios2: Seq<(u64, ServerMsgV)>,
)
    requires
        nomes0.contains(u),
        spec_passo(reg0, nomes0, conn, EventoV::Desconectou, uid, reg1, nomes1, envios1),
        spec_passo(reg1, nomes2, conn2, EventoV::Mensagem(ClientMsgV::GetKey(u)), uid2, reg2, nomes3, envios2),
    ensures
        reg1.dom() == reg0.dom().difference(nomes0.to_set()),
        nomes1 == Seq::<Seq<char>>::empty(),
        envios2 == seq![(conn2, ServerMsgV::Error("Usuário '"@ + u + "' não encontrado."@))],
{
    assert(reg1.dom() =~= reg0.dom().difference(nomes0.to_set()));
    assert(!reg1.dom().contains(u));
}

/// The list of users sent after a change: every registered client gets one
/// message, on its own connection, and each lists every registered name once.
pub proof fn lemma_lista_de_usuarios(reg: Map<Seq<char>, EntradaV>, envios: Seq<(u64, ServerMsgV)>)
    requires
        registro_bem_formado(reg),
        aviso_usuarios(reg, envios),
    ensures
        envios.len() == reg.dom().len(),
        forall|i: int|
            0 <= i < envios.len() ==> ((#[trigger] envios[i]).1 matches ServerMsgV::UserList(l)
                && l.no_duplicates() && l.to_set() == reg.dom()),
        forall|k: Seq<char>|
            reg.dom().contains(k) ==> exists|i: int|
                0 <= i < envios.len() && (#[trigger] envios[i]).0 == reg[k].3,
{
    let ks = choose|ks: Seq<Seq<char>>|
        {
            &&& lista_nomes(reg, ks)
            &&& envios.len() == ks.len()
            &&& forall|i: int|
                0 <= i < ks.len() ==> #[trigger] envios[i] == (
                    reg[ks[i]].3,
                    ServerMsgV::UserList(ks.map_values(|k: Seq<char>| reg[k].0)),
                )
        };
    assert(ks.map_values(|k: Seq<char>| reg[k].0) =~= ks);
    assert(ks.to_set() =~= reg.dom());
    ks.unique_seq_to_set();
    assert forall|k: Seq<char>| reg.dom().contains(k) implies exists|i: int|
        0 <= i < envios.len() && (#[trigger] envios[i]).0 == reg[k].3 by {
        let i = ks.index_of(k);
        assert(envios[i].0 == reg[k].3);
    }
}

/// A registration of a free name answers the registering connection first,
/// then sends the new list of names online (the old names and the new one,
/// each once) to every registered client, the new one included, whatever
/// their number: one message each, on its own connection.
pub proof fn lemma_registro_avisa_todos(
    reg0: Map<Seq<char>, EntradaV>,
    nomes0: Seq<Seq<char>>,
    conn: u64,
    u: Seq<char>,
    n: u64,
    e: u64,
    uid: Seq<char>,
    reg1: Map<Seq<char>, EntradaV>,
    nomes1: Seq<Seq<char>>,
    envios: Seq<(u64, ServerMsgV)>,
)
    requires
        registro_bem_formado(reg0),
        !reg0.dom().contains(u),
        spec_passo(reg0, nomes0, conn, EventoV::Mensagem(ClientMsgV::Register(u, n, e)), uid, reg1, nomes1, envios),
    ensures
        envios.len() == reg0.dom().len() + 2,
        envios[0] == (conn, ServerMsgV::Registered(uid)),
        forall|i: int|
            1 <= i < envios.len() ==> ((#[trigger] envios[i]).1 matches ServerMsgV::UserList(l)
                && l.no_duplicates() && l.to_set() == reg0.dom().insert(u)),
        exists|i: int| 1 <= i < envios.len() && #[trigger] envios[i].0 == conn,
        forall|k: Seq<char>|
            reg0.dom().contains(k) ==> exists|i: int|
                1 <= i < envios.len() && (#[trigger] envios[i]).0 == reg0[k].3,
{
    lemma_passo_bem_formado(reg0, nomes0, conn, EventoV::Mensagem(ClientMsgV::Register(u, n, e)), uid, reg1, nomes1, envios);
    let resto = envios.drop_first();
    lemma_lista_de_usuarios(reg1, resto);
    assert(reg1.dom() =~= reg0.dom().insert(u));
    assert forall|i: int|
        1 <= i < envios.len() implies ((#[trigger] envios[i]).1 matches ServerMsgV::UserList(l)
            && l.no_duplicates() && l.to_set() == reg0.dom().insert(u)) by {
        assert(envios[i] == resto[i - 1]);
    }
    assert(reg1.dom().contains(u));
    let j = choose|j: int| 0 <= j < resto.len() && (#[trigger] resto[j]).0 == reg1[u].3;
    assert(envios[j + 1] == resto[j]);
    assert forall|k: Seq<char>| reg0.dom().contains(k) implies exists|i: int|
        1 <= i < envios.len() && (#[trigger] envios[i]).0 == reg0[k].3 by {
        assert(reg1.dom().contains(k));
        let j = choose|j: int| 0 <= j < resto.len() && (#[trigger] resto[j]).0 == reg1[k].3;
        assert(envios[j + 1] == resto[j]);
    }
}

/// When a connection that registered names closes, the new list of names
/// online (the old names without the connection's ones, each once) goes to
/// every client still registered, whatever their number: one message each, on
/// its own connection, and nothing else.
pub proof fn lemma_desconexao_avisa_todos(
    reg0: Map<Seq<char>, EntradaV>,
    nomes0: Seq<Seq<char>>,
    conn: u64,
    uid: Seq<char>,
    reg1: Map<Seq<char>, EntradaV>,
    nomes1: Seq<Seq<char>>,
    envios: Seq<(u64, ServerMsgV)>,
)
    requires
        registro_bem_formado(reg0),
        nomes0.len() > 0,
        spec_passo(reg0, nomes0, conn, EventoV::Desconectou, uid, reg1, nomes1, envios),
    ensures
        envios.len() == reg0.dom().difference(nomes0.to_set()).len(),
        forall|i: int|
            0 <= i < envios.len() ==> ((#[trigger] envios[i]).1 matches ServerMsgV::UserList(l)
                && l.no_duplicates() && l.to_set() == reg0.dom().difference(nomes0.to_set())),
        forall|k: Seq<char>|
            reg0.dom().contains(k) && !nomes0.contains(k) ==> exists|i: int|
                0 <= i < envios.len() && (#[trigger] envios[i]).0 == reg0[k].3,
{
    lemma_passo_bem_formado(reg0, nomes0, conn, EventoV::Desconectou, uid, reg1, nomes1, envios);
    assert(reg1.dom() =~= reg0.dom().difference(nomes0.to_set()));
    lemma_lista_de_usuarios(reg1, envios);
    assert forall|k: Seq<char>| reg0.dom().contains(k) && !nomes0.contains(k) implies exists|i: int|
        0 <= i < envios.len() && (#[trigger] envios[i]).0 == reg0[k].3 by {
        assert(reg1.dom().contains(k));
        assert(reg1[k] == reg0[k]);
    }
}

// ------------------------------------------------------------------
// Presence: the registry holds exactly the names of open connections
// ------------------------------------------------------------------

/// What happens on the relay: a connection opens, or an event happens on a
/// connection.
pub enum AcaoV {
    Conecta(u64),
    Evento(u64, EventoV),
}

/// The registry, and the names each open connection registered, after one
/// more action: a new connection starts with no names; an event on an open
/// connection has the effect `processar` gives it, and a close also ends the
/// connection. Actions on connections that are not open change nothing.
pub open spec fn passo_sistema(
    reg: Map<Seq<char>, EntradaV>,
    conns: Map<u64, Seq<Seq<char>>>,
    acao: AcaoV,
) -> (Map<Seq<char>, EntradaV>, Map<u64, Seq<Seq<char>>>) {
    match acao {
        AcaoV::Conecta(c) => if conns.dom().contains(c) {
            (reg, conns)
        } else {
            (reg, conns.insert(c, seq![]))
        },
        AcaoV::Evento(c, ev) => if !conns.dom().contains(c) {
            (reg, conns)
        } else {
            let (reg1, nomes1) = efeito(reg, conns[c], c, ev);
            if ev is Desconectou {
                (reg1, conns.remove(c))
            } else {
                (reg1, conns.insert(c, nomes1))
            }
        },
    }
}

/// The registry and the open connections after a sequence of actions, from
/// an empty relay.
pub open spec fn executar(acoes: Seq<AcaoV>) -> (Map<Seq<char>, EntradaV>, Map<u64, Seq<Seq<char>>>)
    decreases acoes.len(),
{
    if acoes.len() == 0 {
        (Map::empty(), Map::empty())
    } else {
        let (reg, conns) = executar(acoes.drop_last());
        passo_sistema(reg, conns, acoes.last())
    }
}

/// The open connection `c` registered the name `u`.
pub open spec fn dono(conns: Map<u64, Seq<Seq<char>>>, u: Seq<char>, c: u64) -> bool {
    conns.dom().contains(c) && conns[c].contains(u)
}

/// The registry holds exactly the names the open connections registered; no
/// name belongs to two connections; and each entry is stored under its own
/// name and sends to the connection that registered it.
pub open spec fn presenca_coerente(reg: Map<Seq<char>, EntradaV>, conns: Map<u64, Seq<Seq<char>>>) -> bool {
    &&& forall|u: Seq<char>| #[trigger] reg.dom().contains(u) <==> exists|c: u64| dono(conns, u, c)
    &&& forall|u: Seq<char>, c1: u64, c2: u64|
        #[trigger] dono(conns, u, c1) && #[trigger] dono(conns, u, c2) ==> c1 == c2
    &&& forall|u: Seq<char>, c: u64|
        #[trigger] dono(conns, u, c) ==> reg[u].0 == u && reg[u].3 == c
}

/// One action keeps the registry coherent with the open connections.
proof fn lemma_presenca_passo(reg: Map<Seq<char>, EntradaV>, conns: Map<u64, Seq<Seq<char>>>, acao: AcaoV)
    requires
        presenca_coerente(reg, conns),
    ensures
        presenca_coerente(passo_sistema(reg, conns, acao).0, passo_sistema(reg, conns, acao).1),
{
    let (reg1, conns1) = passo_sistema(reg, conns, acao);
    match acao {
        AcaoV::Conecta(c) => {
            if !conns.dom().contains(c) {
                assert forall|u: Seq<char>, c2: u64| #[trigger] dono(conns1, u, c2) <==> dono(conns, u, c2) by {
                    if c2 == c {
                        assert(!(Seq::<Seq<char>>::empty().contains(u)));
                    }
                }
                assert forall|u: Seq<char>| #[trigger] reg1.dom().contains(u) <==> exists|c2: u64| dono(conns1, u, c2) by {
                    if reg.dom().contains(u) {
                        let w = choose|c2: u64| dono(conns, u, c2);
                        assert(dono(conns1, u, w));
                    }
                    if exists|c2: u64| dono(conns1, u, c2) {
                        let w = choose|c2: u64| dono(conns1, u, c2);
                        assert(dono(conns, u, w));
                    }
                }
                assert forall|u: Seq<char>, c2: u64| #[trigger] dono(conns1, u, c2) implies reg1[u].0 == u
                    && reg1[u].3 == c2 by {
                    assert(dono(conns, u, c2));
                }
            }
        },
        AcaoV::Evento(c, ev) => {
            if conns.dom().contains(c) {
                let ns = conns[c];
                match ev {
                    EventoV::Desconectou => {
                        assert forall|u: Seq<char>, c2: u64| #[trigger] dono(conns1, u, c2) <==> (c2 != c && dono(conns, u, c2)) by {}
                        assert forall|u: Seq<char>| #[trigger] reg1.dom().contains(u) <==> exists|c2: u64| dono(conns1, u, c2) by {
                            if reg1.dom().contains(u) {
                                assert(reg.dom().contains(u) && !ns.to_set().contains(u));
                                let w = choose|c2: u64| dono(conns, u, c2);
                                assert(w != c);
                                assert(dono(conns1, u, w));
                            }
                            if exists|c2: u64| dono(conns1, u, c2) {
                                let w = choose|c2: u64| dono(conns1, u, c2);
                                assert(dono(conns, u, w) && w != c);
                                assert(reg.dom().contains(u));
                                if ns.contains(u) {
                                    assert(dono(conns, u, c));
                                }
                                assert(!ns.to_set().contains(u));
                            }
                        }
                        assert forall|u: Seq<char>, c2: u64| #[trigger] dono(conns1, u, c2) implies reg1[u].0
                            == u && reg1[u].3 == c2 by {
                            assert(dono(conns, u, c2) && c2 != c);
                            assert(reg.dom().contains(u));
                            if ns.contains(u) {
                                assert(dono(conns, u, c));
                            }
                            assert(!ns.to_set().contains(u));
                        }
                    },
                    EventoV::Mensagem(ClientMsgV::Register(u0, n, e)) => {
                        if reg.dom().contains(u0) {
                            assert(conns1 =~= conns);
                        } else {
                            assert(forall|c2: u64| !dono(conns, u0, c2));
                            assert forall|u: Seq<char>, c2: u64| #[trigger] dono(conns1, u, c2) <==> (dono(conns, u, c2)
                                || (u == u0 && c2 == c)) by {
                                if c2 == c {
                                    assert(ns.push(u0).contains(u) <==> (ns.contains(u) || u == u0)) by {
                                        if ns.push(u0).contains(u) {
                                            let i = choose|i: int| 0 <= i < ns.push(u0).len() && ns.push(u0)[i] == u;
                                            if i < ns.len() {
                                                assert(ns[i] == u);
                                            }
                                        }
                                        if ns.contains(u) {
                                            let i = choose|i: int| 0 <= i < ns.len() && ns[i] == u;
                                            assert(ns.push(u0)[i] == u);
                                        }
                                        if u == u0 {
                                            assert(ns.push(u0)[ns.len() as int] == u0);
                                        }
                                    }
                                }
                            }
                            assert forall|u: Seq<char>| #[trigger] reg1.dom().contains(u) <==> exists|c2: u64| dono(conns1, u, c2) by {
                                if u == u0 {
                                    assert(dono(conns1, u, c));
                                } else {
                                    if reg.dom().contains(u) {
                                        let w = choose|c2: u64| dono(conns, u, c2);
                                        assert(dono(conns1, u, w));
                                    }
                                    if exists|c2: u64| dono(conns1, u, c2) {
                                        let w = choose|c2: u64| dono(conns1, u, c2);
                                        assert(dono(conns, u, w));
                                    }
                                }
                            }
                            assert forall|u: Seq<char>, c2: u64| #[trigger] dono(conns1, u, c2) implies reg1[u].0
                                == u && reg1[u].3 == c2 by {
                                if u != u0 {
                                    assert(dono(conns, u, c2));
                                    assert(reg.dom().contains(u));
                                }
                            }
                        }
                    },
                    _ => {
                        assert(conns1 =~= conns);
                    },
                }
            }
        },
    }
}

/// Presence: after any sequence of connections, events and closes, the
/// registry holds exactly the names registered by the connections still
/// open, each under its own name and sending to the connection that
/// registered it, and no name belongs to two connections. With
/// `lemma_lista_de_usuarios`, every user list names exactly the clients online.
pub proof fn lemma_presenca(acoes: Seq<AcaoV>)
    ensures
        presenca_coerente(executar(acoes).0, executar(acoes).1),
    decreases acoes.len(),
{
    if acoes.len() > 0 {
        lemma_presenca(acoes.drop_last());
        lemma_presenca_passo(executar(acoes.drop_last()).0, executar(acoes.drop_last()).1, acoes.last());
    } else {
        let (reg, conns) = executar(acoes);
        assert(reg.dom() =~= Set::<Seq<char>>::empty());
        assert forall|u: Seq<char>, c: u64| !dono(conns, u, c) by {}
    }
}

// ------------------------------------------------------------------
// The relay
// ------------------------------------------------------------------

/// The state all connections share: the registry of the clients online.
pub struct Estado {
    usuarios: Registro,
}

/// An error message for a connection.
fn erro(destino: u64, message: String) -> (envio: Envio)
    ensures
        envio.destino == destino,
        envio.msg@ == ServerMsgV::Error(message@),
{
    Envio { destino, msg: ServerMsg::Error { message } }
}

impl Estado {
    /// The registry, as values.
    pub closed spec fn registro(&self) -> Map<Seq<char>, EntradaV> {
        registro(self.usuarios)
    }

    /// Each entry of the registry is stored under its own name.
    pub open spec fn bem_formado(&self) -> bool {
        registro_bem_formado(self.registro())
    }

    /// An empty registry.
    pub fn new() -> (estado: Estado)
        ensures
            estado.bem_formado(),
            estado.registro().dom() == Set::<Seq<char>>::empty(),
    {
        let usuarios = registro_novo();
        let estado = Estado { usuarios };
        proof {
            assert(estado.registro().dom() =~= Set::<Seq<char>>::empty());
        }
        estado
    }

    /// Appends to `envios` the list of the names online, one message for
    /// each registered client, sent to its connection.
    fn avisar_usuarios(&self, envios: &mut Vec<Envio>)
        ensures
            exists|parte: Seq<(u64, ServerMsgV)>|
                envios_view(final(envios)@) == envios_view(old(envios)@) + parte && aviso_usuarios(
                    self.registro(),
                    parte,
                ),
    {
        let ghost reg = self.registro();
        let entradas = registro_entradas(&self.usuarios);
        let ghost ks = choose|ks: Seq<Seq<char>>|
            {
                &&& lista_nomes(reg, ks)
                &&& entradas@.len() == ks.len()
                &&& forall|i: int|
                    0 <= i < ks.len() ==> (#[trigger] entradas@[i]).nome@ == reg[ks[i]].0
                        && entradas@[i].conexao == reg[ks[i]].3
            };
        let ghost nomes = ks.map_values(|k: Seq<char>| reg[k].0);
        let n = entradas.len();
        let mut users: Vec<String> = Vec::new();
        for i in 0..n
            invariant
                n == entradas@.len(),
                n == ks.len(),
                lista_nomes(reg, ks),
                nomes == ks.map_values(|k: Seq<char>| reg[k].0),
                forall|j: int|
                    0 <= j < ks.len() ==> (#[trigger] entradas@[j]).nome@ == reg[ks[j]].0,
                users@.len() == i,
                forall|j: int| 0 <= j < i ==> (#[trigger] users@[j])@ == nomes[j],
        {
            users.push(entradas[i].nome.clone());
        }
        let ghost antes = envios_view(envios@);
        let ghost item = |j: int| (reg[ks[j]].3, ServerMsgV::UserList(nomes));
        for i in 0..n
            invariant
                n == entradas@.len(),
                n == ks.len(),
                lista_nomes(reg, ks),
                nomes == ks.map_values(|k: Seq<char>| reg[k].0),
                item == (|j: int| (reg[ks[j]].3, ServerMsgV::UserList(nomes))),
                forall|j: int|
                    0 <= j < ks.len() ==> (#[trigger] entradas@[j]).conexao == reg[ks[j]].3,
                users@.len() == n,
                forall|j: int| 0 <= j < n ==> (#[trigger] users@[j])@ == nomes[j],
                envios_view(envios@) == antes + Seq::new(i as nat, item),
        {
            let lista = users.clone();
            proof {
                assert(lista@.map_values(|u: String| u@) =~= nomes);
            }
            let ghost anterior = envios@;
            let envio = Envio { destino: entradas[i].conexao, msg: ServerMsg::UserList { users: lista } };
            assert((envio.destino, envio.msg@) == item(i as int));
            envios.push(envio);
            proof {
                assert(envios_view(envios@) =~= envios_view(anterior).push(item(i as int)));
                assert(antes + Seq::new((i + 1) as nat, item) =~= (antes + Seq::new(i as nat, item)).push(
                    item(i as int),
                ));
            }
        }
        proof {
            let parte = Seq::new(n as nat, item);
            assert(parte.len() == ks.len());
            assert(forall|j: int|
                0 <= j < ks.len() ==> #[trigger] parte[j] == (
                    reg[ks[j]].3,
                    ServerMsgV::UserList(ks.map_values(|k: Seq<char>| reg[k].0)),
                ));
            assert(aviso_usuarios(reg, parte));
        }
    }

    /// One step of a connection. A registration gets a fresh random
    /// version-4 UUID as its id; every other outcome is fixed by the registry,
    /// the connection and the event.
    pub fn processar(&mut self, conexao: &mut Conexao, evento: Evento) -> (envios: Vec<Envio>)
        requires
            old(self).bem_formado(),
        ensures
            final(self).bem_formado(),
            final(conexao).id == old(conexao).id,
            exists|uid: Seq<char>|
                (e_registro(evento@) ==> forma_uuid_v4(uid)) && #[trigger] spec_passo(
                    old(self).registro(),
                    nomes_view(old(conexao).nomes@),
                    old(conexao).id,
                    evento@,
                    uid,
                    final(self).registro(),
                    nomes_view(final(conexao).nomes@),
                    envios_view(envios@),
                ),
    {
        let user_id = match &evento {
            Evento::Mensagem(ClientMsg::Register { .. }) => novo_user_id(),
            _ => String::new(),
        };
        let ghost uid = user_id@;
        let ghost ev = evento@;
        let envios = self.processar_com_id(conexao, evento, user_id);
        assert(e_registro(ev) ==> forma_uuid_v4(uid));
        envios
    }

    /// One step of a connection, with the id a registration would give.
    pub fn processar_com_id(&mut self, conexao: &mut Conexao, evento: Evento, user_id: String) -> (envios: Vec<Envio>)
        requires
            old(self).bem_formado(),
        ensures
            final(self).bem_formado(),
            final(conexao).id == old(conexao).id,
            spec_passo(
                old(self).registro(),
                nomes_view(old(conexao).nomes@),
                old(conexao).id,
                evento@,
                user_id@,
                final(self).registro(),
                nomes_view(final(conexao).nomes@),
                envios_view(envios@),
            ),
    {
        let mut envios: Vec<Envio> = Vec::new();
        match evento {
            Evento::JsonInvalido(detalhe) => {
                let mut message = "JSON inválido: ".to_owned();
                anexar(&mut message, detalhe.as_str());
                envios.push(erro(conexao.id, message));
                proof {
                    assert(envios_view(envios@) =~= seq![
                        (conexao.id, ServerMsgV::Error("JSON inválido: "@ + detalhe@)),
                    ]);
                }
            },
            Evento::Desconectou => {
                let mut nomes: Vec<String> = Vec::new();
                std::mem::swap(&mut nomes, &mut conexao.nomes);
                let ghost reg0 = self.registro();
                let ghost ns = nomes_view(nomes@);
                let k = nomes.len();
                for i in 0..k
                    invariant
                        k == nomes@.len(),
                        ns == nomes_view(nomes@),
                        registro_bem_formado(reg0),
                        self.registro() == reg0.remove_keys(ns.take(i as int).to_set()),
                {
                    registro_remover(&mut self.usuarios, &nomes[i]);
                    proof {
                        assert(ns.take(i + 1) =~= ns.take(i as int).push(ns[i as int]));
                        ns.take(i as int).lemma_push_to_set_commute(ns[i as int]);
                        assert(self.registro() =~= reg0.remove_keys(ns.take(i + 1).to_set()));
                    }
                }
                proof {
                    assert(ns.take(k as int) =~= ns);
                    lemma_remove_keys_bem_formado(reg0, ns.to_set());
                    assert(nomes_view(conexao.nomes@) =~= Seq::<Seq<char>>::empty());
                }
                if k > 0 {
                    self.avisar_usuarios(&mut envios);
                    proof {
                        assert(envios_view(envios@) =~= seq![] + envios_view(envios@));
                    }
                }
            },
            Evento::Mensagem(ClientMsg::Register { username, public_key }) => {
                if registro_contem(&self.usuarios, &username) {
                    envios.push(erro(conexao.id, "Username já em uso.".to_owned()));
                    proof {
                        assert(envios_view(envios@) =~= seq![
                            (conexao.id, ServerMsgV::Error("Username já em uso."@)),
                        ]);
                    }
                } else {
                    let entrada = UserEntry { username: username.clone(), public_key, conexao: conexao.id };
                    registro_inserir(&mut self.usuarios, username.clone(), entrada);
                    let ghost antes = conexao.nomes@;
                    conexao.nomes.push(username);
                    proof {
                        assert(nomes_view(conexao.nomes@) =~= nomes_view(antes).push(username@));
                    }
                    envios.push(Envio { destino: conexao.id, msg: ServerMsg::Registered { user_id } });
                    self.avisar_usuarios(&mut envios);
                    proof {
                        let v = envios_view(envios@);
                        assert(v.drop_first() =~= v.subrange(1, v.len() as int));
                    }
                }
            },
            Evento::Mensagem(ClientMsg::GetKey { target_username }) => {
                match registro_obter(&self.usuarios, &target_username) {
                    Some((username, n, e, _c)) => {
                        envios.push(Envio {
                            destino: conexao.id,
                            msg: ServerMsg::KeyResponse { username, public_key: PublicKeyDto { n, e } },
                        });
                        proof {
                            let r = self.registro()[target_username@];
                            assert(envios_view(envios@) =~= seq![
                                (conexao.id, ServerMsgV::KeyResponse(r.0, r.1, r.2)),
                            ]);
                        }
                    },
                    None => {
                        let mut message = "Usuário '".to_owned();
                        anexar(&mut message, target_username.as_str());
                        anexar(&mut message, "' não encontrado.");
                        envios.push(erro(conexao.id, message));
                        proof {
                            assert(envios_view(envios@) =~= seq![
                                (
                                    conexao.id,
                                    ServerMsgV::Error(
                                        "Usuário '"@ + target_username@ + "' não encontrado."@,
                                    ),
                                ),
                            ]);
                        }
                    },
                }
            },
            Evento::Mensagem(
                ClientMsg::SendMessage { to, encrypted_session_key, encrypted_payload, mac },
            ) => {
                let k = conexao.nomes.len();
                match if k == 0 { None } else { Some(&conexao.nomes[k - 1]) } {
                    None => {
                        envios.push(
                            erro(conexao.id, "Você precisa se registrar primeiro.".to_owned()),
                        );
                        proof {
                            assert(envios_view(envios@) =~= seq![
                                (conexao.id, ServerMsgV::Error("Você precisa se registrar primeiro."@)),
                            ]);
                        }
                    },
                    Some(u) => {
                        let from = u.clone();
                        match registro_obter(&self.usuarios, &to) {
                            Some((_u, _n, _e, destino)) => {
                                envios.push(Envio {
                                    destino,
                                    msg: ServerMsg::IncomingMessage {
                                        from,
                                        encrypted_session_key,
                                        encrypted_payload,
                                        mac,
                                    },
                                });
                                proof {
                                    assert(envios_view(envios@) =~= seq![
                                        (
                                            destino,
                                            ServerMsgV::IncomingMessage(
                                                u@,
                                                encrypted_session_key@,
                                                encrypted_payload@,
                                                mac@,
                                            ),
                                        ),
                                    ]);
                                }
                            },
                            None => {
                                let mut message = "Destinatário '".to_owned();
                                anexar(&mut message, to.as_str());
                                anexar(&mut message, "' não está online.");
                                envios.push(erro(conexao.id, message));
                                proof {
                                    assert(envios_view(envios@) =~= seq![
                                        (
                                            conexao.id,
                                            ServerMsgV::Error(
                                                "Destinatário '"@ + to@ + "' não está online."@,
                                            ),
                                        ),
                                    ]);
                                }
                            },
                        }
                    },
                }
            },
        }
        envios
    }
}

} // verus!
