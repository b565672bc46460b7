use rand::rngs::StdRng;
use rand::SeedableRng;

use server::auth::{Auth, Role, RoleKey, UserId, User};
use server::post::{Rating, UnknownRating};
use server::secrets::Secrets;
use server::util::Comparator;

fn role(id: &str) -> Role {
    Role { id: id.to_string(), name: id.to_string(), owner: false, user: false, guest: false }
}

#[test]
fn rating_from_str() {
    assert_eq!(Rating::from_str("safe"), Ok(Rating::Safe));
    assert_eq!(Rating::from_str("risky"), Ok(Rating::Risky));
    assert_eq!(Rating::from_str("unsafe"), Ok(Rating::Unsafe));
    assert_eq!(Rating::from_str("Safe"), Err(UnknownRating));
    assert_eq!(Rating::from_str(" safe"), Err(UnknownRating));
    assert!(Rating::Safe.rank() < Rating::Risky.rank());
    assert!(Rating::Risky.rank() < Rating::Unsafe.rank());
}

#[test]
fn comparator_cmp() {
    let cases = [
        (Comparator::Lt, [true, false, false]),
        (Comparator::Lte, [true, true, false]),
        (Comparator::Eq, [false, true, false]),
        (Comparator::Neq, [true, false, true]),
        (Comparator::Gte, [false, true, true]),
        (Comparator::Gt, [false, false, true]),
    ];
    for (c, expected) in cases {
        assert_eq!([c.cmp(1, 2), c.cmp(2, 2), c.cmp(3, 2)], expected);
    }
}

#[test]
fn role_key_index() {
    assert_eq!(RoleKey(7).i(), 7);
    assert!(RoleKey(2) > RoleKey(1));
    let user = User { id: UserId(3), role: RoleKey(1) };
    assert_eq!(user.id, UserId(3));
}

#[test]
fn auth_ranks_roles_highest_first() {
    let roles = vec![role("owner"), role("mod"), role("user"), role("guest")];
    let auth = Auth::new(64, roles);
    assert_eq!(auth.role_mapping.get("owner"), Some(&RoleKey(3)));
    assert_eq!(auth.role_mapping.get("mod"), Some(&RoleKey(2)));
    assert_eq!(auth.role_mapping.get("user"), Some(&RoleKey(1)));
    assert_eq!(auth.role_mapping.get("guest"), Some(&RoleKey(0)));
    assert_eq!(auth.role_mapping.get("admin"), None);
    assert_eq!(auth.roles.len(), 4);
    assert_eq!(auth.user_cache.policy().max_capacity(), Some(64));
}

#[test]
fn auth_duplicate_id_keeps_first_rank() {
    let auth = Auth::new(8, vec![role("a"), role("b"), role("a")]);
    assert_eq!(auth.role_mapping.get("a"), Some(&RoleKey(2)));
    assert_eq!(auth.role_mapping.get("b"), Some(&RoleKey(1)));
}

#[test]
fn test_alphabet() {
    let mut rng = StdRng::seed_from_u64(42);
    let alphabet = Secrets::generate(&mut rng).sqids_alphabet;
    assert!(alphabet.is_ascii(), "Sqids alphabet contains non-ASCII");
    let mut chars_exp: Vec<char> = sqids::DEFAULT_ALPHABET.chars().collect();
    let mut chars_got: Vec<char> = alphabet.chars().collect();
    chars_exp.sort_unstable();
    chars_got.sort_unstable();
    assert_eq!(chars_exp, chars_got, "Sqids alphabet was not a shuffle");
}

#[test]
fn gen_alphabet_is_a_shuffle_of_the_default() {
    let mut rng = StdRng::seed_from_u64(5);
    let alphabet = Secrets::gen_alphabet(&mut rng);
    assert_eq!(alphabet.len(), sqids::DEFAULT_ALPHABET.len());
    assert_ne!(alphabet, sqids::DEFAULT_ALPHABET);
    for c in sqids::DEFAULT_ALPHABET.chars() {
        assert_eq!(alphabet.matches(c).count(), 1);
    }
}

#[test]
fn generated_secrets_differ_between_draws() {
    let mut rng = StdRng::seed_from_u64(7);
    let a = Secrets::generate(&mut rng);
    let b = Secrets::generate(&mut rng);
    assert_ne!(a, b);
    assert_eq!(a.sqids_alphabet.len(), 62);
}

#[test]
fn pepper_text_escapes_like_escape_ascii() {
    let mut media_pepper = [0u8; 32];
    for (i, b) in media_pepper.iter_mut().enumerate() {
        *b = (i as u8).wrapping_mul(37).wrapping_add(3);
    }
    media_pepper[0] = b'\\';
    media_pepper[1] = b'\'';
    media_pepper[2] = b'"';
    media_pepper[3] = b'\n';
    media_pepper[4] = b'a';
    media_pepper[5] = 0xff;
    let secrets = Secrets { media_pepper, sqids_alphabet: String::new() };
    assert_eq!(secrets.pepper_text(), media_pepper.escape_ascii().to_string());
    assert!(secrets.pepper_text().starts_with("\\\\\\'\\\"\\na\\xff"));
}

#[test]
fn comparator_on_ratings_follows_rank() {
    let ratings = [Rating::Safe, Rating::Risky, Rating::Unsafe];
    let ops = [Comparator::Lt, Comparator::Lte, Comparator::Eq, Comparator::Neq, Comparator::Gte, Comparator::Gt];
    for a in ratings {
        for b in ratings {
            assert_eq!(a < b, a.rank() < b.rank());
            assert_eq!(a == b, a.rank() == b.rank());
            for op in ops {
                assert_eq!(op.cmp(a, b), op.cmp(a.rank(), b.rank()));
            }
        }
    }
    assert!(Comparator::Lte.cmp(Rating::Safe, Rating::Risky));
    assert!(!Comparator::Gt.cmp(Rating::Safe, Rating::Unsafe));
}
