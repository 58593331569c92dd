use cripto::servidor::{ClientMsg, Conexao, Envio, Estado, Evento, PublicKeyDto, ServerMsg};

fn conexao(id: u64) -> Conexao {
    Conexao { id, nomes: Vec::new() }
}

fn registro(nome: &str, n: u64, e: u64) -> Evento {
    Evento::Mensagem(ClientMsg::Register {
        username: nome.to_string(),
        public_key: PublicKeyDto { n, e },
    })
}

fn pedir_chave(nome: &str) -> Evento {
    Evento::Mensagem(ClientMsg::GetKey { target_username: nome.to_string() })
}

fn mensagem(para: &str, chave: &str, carga: &str, mac: &str) -> Evento {
    Evento::Mensagem(ClientMsg::SendMessage {
        to: para.to_string(),
        encrypted_session_key: chave.to_string(),
        encrypted_payload: carga.to_string(),
        mac: mac.to_string(),
    })
}

fn erro_de(envio: &Envio) -> String {
    match &envio.msg {
        ServerMsg::Error { message } => message.clone(),
        outro => panic!("expected an error, got {:?}", outro),
    }
}

fn lista_de(envio: &Envio) -> Vec<String> {
    match &envio.msg {
        ServerMsg::UserList { users } => {
            let mut u = users.clone();
            u.sort();
            u
        }
        outro => panic!("expected a user list, got {:?}", outro),
    }
}

#[test]
fn registro_confirma_e_avisa() {
    let mut estado = Estado::new();
    let mut a = conexao(1);
    let envios = estado.processar_com_id(&mut a, registro("alice", 67591, 17), "id-a".to_string());
    assert_eq!(envios.len(), 2);
    assert_eq!(envios[0].destino, 1);
    assert!(matches!(&envios[0].msg, ServerMsg::Registered { user_id } if user_id == "id-a"));
    assert_eq!(envios[1].destino, 1);
    assert_eq!(lista_de(&envios[1]), vec!["alice".to_string()]);
    assert_eq!(a.nomes, vec!["alice".to_string()]);
}

#[test]
fn registro_avisa_todos() {
    let mut estado = Estado::new();
    let mut a = conexao(1);
    let mut b = conexao(2);
    estado.processar_com_id(&mut a, registro("alice", 67591, 17), "id-a".to_string());
    let envios = estado.processar_com_id(&mut b, registro("bob", 3233, 17), "id-b".to_string());
    assert_eq!(envios.len(), 3);
    assert_eq!(envios[0].destino, 2);
    let mut destinos: Vec<u64> = envios[1..].iter().map(|e| e.destino).collect();
    destinos.sort();
    assert_eq!(destinos, vec![1, 2]);
    for envio in &envios[1..] {
        assert_eq!(lista_de(envio), vec!["alice".to_string(), "bob".to_string()]);
    }
}

#[test]
fn nome_em_uso_recusado() {
    let mut estado = Estado::new();
    let mut a = conexao(1);
    let mut b = conexao(2);
    estado.processar_com_id(&mut a, registro("alice", 67591, 17), "id-a".to_string());
    let envios = estado.processar_com_id(&mut b, registro("alice", 3233, 7), "id-b".to_string());
    assert_eq!(envios.len(), 1);
    assert_eq!(envios[0].destino, 2);
    assert_eq!(erro_de(&envios[0]), "Username já em uso.");
    assert!(b.nomes.is_empty());
    // The first registration keeps its key.
    let envios = estado.processar_com_id(&mut b, pedir_chave("alice"), String::new());
    assert!(matches!(
        &envios[0].msg,
        ServerMsg::KeyResponse { username, public_key } if username == "alice" && public_key.n == 67591 && public_key.e == 17
    ));
}

#[test]
fn pedir_chave_registrada() {
    let mut estado = Estado::new();
    let mut a = conexao(1);
    let mut b = conexao(2);
    estado.processar_com_id(&mut a, registro("alice", 67591, 17), "id-a".to_string());
    let envios = estado.processar_com_id(&mut b, pedir_chave("alice"), String::new());
    assert_eq!(envios.len(), 1);
    assert_eq!(envios[0].destino, 2);
    assert!(matches!(
        &envios[0].msg,
        ServerMsg::KeyResponse { username, public_key } if username == "alice" && *public_key == PublicKeyDto { n: 67591, e: 17 }
    ));
}

#[test]
fn pedir_chave_desconhecida() {
    let mut estado = Estado::new();
    let mut b = conexao(2);
    let envios = estado.processar_com_id(&mut b, pedir_chave("carol"), String::new());
    assert_eq!(envios.len(), 1);
    assert_eq!(envios[0].destino, 2);
    assert_eq!(erro_de(&envios[0]), "Usuário 'carol' não encontrado.");
}

#[test]
fn mensagem_entregue_sem_alteracao() {
    let mut estado = Estado::new();
    let mut a = conexao(1);
    let mut b = conexao(2);
    estado.processar_com_id(&mut a, registro("alice", 67591, 17), "id-a".to_string());
    estado.processar_com_id(&mut b, registro("bob", 3233, 17), "id-b".to_string());
    let envios = estado.processar_com_id(&mut a, mensagem("bob", "0a1b", "c0ffee", "beef"), String::new());
    assert_eq!(envios.len(), 1);
    assert_eq!(envios[0].destino, 2);
    match &envios[0].msg {
        ServerMsg::IncomingMessage { from, encrypted_session_key, encrypted_payload, mac } => {
            assert_eq!(from, "alice");
            assert_eq!(encrypted_session_key, "0a1b");
            assert_eq!(encrypted_payload, "c0ffee");
            assert_eq!(mac, "beef");
        }
        outro => panic!("expected a message, got {:?}", outro),
    }
}

#[test]
fn mensagem_sem_registro() {
    let mut estado = Estado::new();
    let mut a = conexao(1);
    let mut b = conexao(2);
    estado.processar_com_id(&mut b, registro("bob", 3233, 17), "id-b".to_string());
    let envios = estado.processar_com_id(&mut a, mensagem("bob", "k", "p", "m"), String::new());
    assert_eq!(envios.len(), 1);
    assert_eq!(envios[0].destino, 1);
    assert_eq!(erro_de(&envios[0]), "Você precisa se registrar primeiro.");
}

#[test]
fn mensagem_para_quem_nao_esta_online() {
    let mut estado = Estado::new();
    let mut a = conexao(1);
    estado.processar_com_id(&mut a, registro("alice", 67591, 17), "id-a".to_string());
    let envios = estado.processar_com_id(&mut a, mensagem("bob", "k", "p", "m"), String::new());
    assert_eq!(envios.len(), 1);
    assert_eq!(envios[0].destino, 1);
    assert_eq!(erro_de(&envios[0]), "Destinatário 'bob' não está online.");
}

#[test]
fn json_invalido() {
    let mut estado = Estado::new();
    let mut a = conexao(7);
    let envios = estado.processar_com_id(
        &mut a,
        Evento::JsonInvalido("expected value at line 1 column 1".to_string()),
        String::new(),
    );
    assert_eq!(envios.len(), 1);
    assert_eq!(envios[0].destino, 7);
    assert_eq!(erro_de(&envios[0]), "JSON inválido: expected value at line 1 column 1");
}

#[test]
fn desconexao_remove_e_avisa() {
    let mut estado = Estado::new();
    let mut a = conexao(1);
    let mut b = conexao(2);
    estado.processar_com_id(&mut a, registro("alice", 67591, 17), "id-a".to_string());
    estado.processar_com_id(&mut b, registro("bob", 3233, 17), "id-b".to_string());
    let envios = estado.processar_com_id(&mut a, Evento::Desconectou, String::new());
    assert!(a.nomes.is_empty());
    assert_eq!(envios.len(), 1);
    assert_eq!(envios[0].destino, 2);
    assert_eq!(lista_de(&envios[0]), vec!["bob".to_string()]);
    let envios = estado.processar_com_id(&mut b, pedir_chave("alice"), String::new());
    assert_eq!(erro_de(&envios[0]), "Usuário 'alice' não encontrado.");
    // The name is free again.
    let mut c = conexao(3);
    let envios = estado.processar_com_id(&mut c, registro("alice", 11, 3), "id-c".to_string());
    assert!(matches!(&envios[0].msg, ServerMsg::Registered { .. }));
}

#[test]
fn desconexao_sem_registro() {
    let mut estado = Estado::new();
    let mut a = conexao(1);
    let mut b = conexao(2);
    estado.processar_com_id(&mut b, registro("bob", 3233, 17), "id-b".to_string());
    let envios = estado.processar_com_id(&mut a, Evento::Desconectou, String::new());
    assert!(envios.is_empty());
    let envios = estado.processar_com_id(&mut a, pedir_chave("bob"), String::new());
    assert!(matches!(&envios[0].msg, ServerMsg::KeyResponse { .. }));
}

#[test]
fn ultimo_a_sair_nao_avisa_ninguem() {
    let mut estado = Estado::new();
    let mut a = conexao(1);
    estado.processar_com_id(&mut a, registro("alice", 67591, 17), "id-a".to_string());
    let envios = estado.processar_com_id(&mut a, Evento::Desconectou, String::new());
    assert!(envios.is_empty());
}

#[test]
fn novo_registro_na_mesma_conexao() {
    // A connection that registers a second name keeps both in the registry
    // and speaks as the second.
    let mut estado = Estado::new();
    let mut a = conexao(1);
    let mut b = conexao(2);
    estado.processar_com_id(&mut a, registro("alice", 67591, 17), "id-1".to_string());
    let envios = estado.processar_com_id(&mut a, registro("alicia", 3233, 17), "id-2".to_string());
    assert_eq!(envios.len(), 3);
    assert_eq!(a.nomes, vec!["alice".to_string(), "alicia".to_string()]);
    assert_eq!(lista_de(&envios[1]), vec!["alice".to_string(), "alicia".to_string()]);
    estado.processar_com_id(&mut b, registro("bob", 11, 3), "id-3".to_string());
    let envios = estado.processar_com_id(&mut a, mensagem("bob", "k", "p", "m"), String::new());
    assert!(matches!(&envios[0].msg, ServerMsg::IncomingMessage { from, .. } if from == "alicia"));
}

#[test]
fn desconexao_remove_todos_os_nomes() {
    let mut estado = Estado::new();
    let mut a = conexao(1);
    let mut b = conexao(2);
    estado.processar_com_id(&mut a, registro("alice", 67591, 17), "id-1".to_string());
    estado.processar_com_id(&mut a, registro("alicia", 3233, 17), "id-2".to_string());
    estado.processar_com_id(&mut b, registro("bob", 11, 3), "id-3".to_string());
    let envios = estado.processar_com_id(&mut a, Evento::Desconectou, String::new());
    assert!(a.nomes.is_empty());
    assert_eq!(envios.len(), 1);
    assert_eq!(envios[0].destino, 2);
    assert_eq!(lista_de(&envios[0]), vec!["bob".to_string()]);
    for nome in ["alice", "alicia"] {
        let envios = estado.processar_com_id(&mut b, pedir_chave(nome), String::new());
        assert_eq!(erro_de(&envios[0]), format!("Usuário '{}' não encontrado.", nome));
    }
}

#[test]
fn registro_com_uuid_v4() {
    let mut estado = Estado::new();
    let mut a = conexao(1);
    let envios = estado.processar(&mut a, registro("alice", 67591, 17));
    assert_eq!(envios.len(), 2);
    match &envios[0].msg {
        ServerMsg::Registered { user_id } => {
            let cs: Vec<char> = user_id.chars().collect();
            assert_eq!(cs.len(), 36);
            for (i, c) in cs.iter().enumerate() {
                if i == 8 || i == 13 || i == 18 || i == 23 {
                    assert_eq!(*c, '-');
                } else {
                    assert!(c.is_ascii_digit() || ('a'..='f').contains(c));
                }
            }
            assert_eq!(cs[14], '4');
            assert!(matches!(cs[19], '8' | '9' | 'a' | 'b'));
        }
        outro => panic!("expected a registration, got {:?}", outro),
    }
    let mut b = conexao(2);
    let envios_b = estado.processar(&mut b, registro("bob", 3233, 17));
    match (&envios[0].msg, &envios_b[0].msg) {
        (ServerMsg::Registered { user_id: x }, ServerMsg::Registered { user_id: y }) => assert_ne!(x, y),
        _ => panic!("expected two registrations"),
    }
}

#[test]
fn processar_outros_eventos() {
    let mut estado = Estado::new();
    let mut a = conexao(1);
    let envios = estado.processar(&mut a, pedir_chave("ninguem"));
    assert_eq!(erro_de(&envios[0]), "Usuário 'ninguem' não encontrado.");
}
