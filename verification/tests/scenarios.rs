use boblee::choice::best_fit;
use boblee::engine::{finish_rating, rate_moves};
use boblee::futur::{build_futur, extreme_pathes, longest_futur};
use boblee::model::{Board, Game, GameId, Move, Point, Snake};
use boblee::possible::Possible;
use serde_json::Value;

fn point(v: &Value) -> Point {
    Point { x: v["x"].as_i64().unwrap() as i16, y: v["y"].as_i64().unwrap() as i16 }
}

fn points(v: &Value) -> Vec<Point> {
    v.as_array().unwrap().iter().map(point).collect()
}

fn snake(v: &Value) -> Snake {
    Snake {
        id: v["id"].as_str().unwrap().to_string(),
        name: v["name"].as_str().unwrap().to_string(),
        health: v["health"].as_u64().unwrap() as u8,
        body: points(&v["body"]),
    }
}

/// Reads a game as the server sends it.
fn game_from_json(content: &str) -> Game {
    let v: Value = serde_json::from_str(content).expect("Unable to deserialize game");
    Game {
        game: GameId { id: v["game"]["id"].as_str().unwrap().to_string() },
        turn: v["turn"].as_u64().unwrap() as u32,
        board: Board {
            height: v["board"]["height"].as_u64().unwrap() as u16,
            width: v["board"]["width"].as_u64().unwrap() as u16,
            food: points(&v["board"]["food"]),
            snakes: v["board"]["snakes"].as_array().unwrap().iter().map(snake).collect(),
        },
        you: snake(&v["you"]),
    }
}

/// The shares of the food reward, computed in `f32` from candidates ordered
/// by food distance.
fn food_shares(ps: &[Possible]) -> Vec<i32> {
    let total: f32 = ps.iter().map(|item| 1.0_f32 / item.prefer_food_distance as f32).sum();
    let value = 25;
    ps.iter()
        .map(|p| ((value as f32 * (1.0_f32 / p.prefer_food_distance as f32)) / total) as i32)
        .collect()
}

/// The candidates of a game given as JSON, fully rated.
fn rated(content: &str) -> Vec<Possible> {
    let game = game_from_json(content);
    let mut ps = rate_moves(&game);
    let shares = food_shares(&ps);
    finish_rating(&game, &mut ps, &shares);
    ps
}

/// The move chosen for a game given as JSON; the paths ahead are worked out
/// on the way, as the server does before it answers.
fn play(content: &str) -> Move {
    let mut ps = rated(content);
    let futur = build_futur(&game_from_json(content));
    let pathes = longest_futur(&futur);
    assert!(pathes.windows(2).all(|w| w[0].len() <= w[1].len()));
    let shown = extreme_pathes(&pathes);
    assert!(shown.len() <= pathes.len());
    best_fit(&mut ps)
}

/// Sets the random tie-breakers as a draw in favour of move `dir` would.
fn draw_for(ps: &mut [Possible], dir: Move) {
    for p in ps.iter_mut() {
        p.rand = if p.dir == dir { 255 } else { 0 };
    }
}

/// The value of the candidate that makes move `dir`.
fn value_of(ps: &[Possible], dir: Move) -> i32 {
    ps.iter().find(|p| p.dir == dir).unwrap().value
}

#[test]
fn test_mange_la_pomme() {

    let game = "{\"game\":{\"id\":\"91ebc415-da16-4c8b-b8aa-feedb74f0040\"},\"turn\":88,\"board\":{\"height\":11,\"width\":11,\"food\":[{\"x\":3,\"y\":0}],\"snakes\":[{\"id\":\"gs_G73RbQqT94r3fkMwPXpYYQWX\",\"name\":\"xm-evanguo / pinkpinkpenguin\",\"health\":96,\"body\":[{\"x\":8,\"y\":8},{\"x\":8,\"y\":9},{\"x\":9,\"y\":9},{\"x\":9,\"y\":8},{\"x\":10,\"y\":8},{\"x\":10,\"y\":7},{\"x\":9,\"y\":7},{\"x\":8,\"y\":7}]},{\"id\":\"gs_j6TBPGM74PyrxjHk6FMf4xmW\",\"name\":\"robbles / ROB 2018\",\"health\":75,\"body\":[{\"x\":3,\"y\":9},{\"x\":3,\"y\":10},{\"x\":4,\"y\":10},{\"x\":5,\"y\":10},{\"x\":6,\"y\":10},{\"x\":7,\"y\":10},{\"x\":7,\"y\":9},{\"x\":6,\"y\":9}]},{\"id\":\"gs_hMxC94hH8qtJbbFMXWJ9fc8M\",\"name\":\"neovas / hissin-bastid\",\"health\":77,\"body\":[{\"x\":7,\"y\":5},{\"x\":8,\"y\":5},{\"x\":8,\"y\":4},{\"x\":7,\"y\":4}]},{\"id\":\"gs_gR4MvwQJMBMBfBfYm7pdmp7S\",\"name\":\"lduchosal / boblee-0.13\",\"health\":97,\"body\":[{\"x\":3,\"y\":3},{\"x\":3,\"y\":4},{\"x\":3,\"y\":5},{\"x\":3,\"y\":6},{\"x\":4,\"y\":6},{\"x\":4,\"y\":5},{\"x\":4,\"y\":4}]}]},\"you\":{\"id\":\"gs_gR4MvwQJMBMBfBfYm7pdmp7S\",\"name\":\"lduchosal / boblee-0.13\",\"health\":97,\"body\":[{\"x\":3,\"y\":3},{\"x\":3,\"y\":4},{\"x\":3,\"y\":5},{\"x\":3,\"y\":6},{\"x\":4,\"y\":6},{\"x\":4,\"y\":5},{\"x\":4,\"y\":4}]}}";
    let next = play(game);

    assert_eq!(next, Move::Up);

}

#[test]
fn test_mange_la_pomme_3() {

    let game = "{\"game\":{\"id\":\"11b09dfd-3e16-4106-9cf3-081a4364efae\"},\"turn\":34,\"board\":{\"height\":11,\"width\":11,\"food\":[{\"x\":0,\"y\":2},{\"x\":8,\"y\":1},{\"x\":5,\"y\":2}],\"snakes\":[{\"id\":\"gs_DSk7h6mdpxMwY7SjSGRHgYxF\",\"name\":\"duncmac16 / ProtoFeist\",\"health\":82,\"body\":[{\"x\":1,\"y\":1},{\"x\":2,\"y\":1},{\"x\":3,\"y\":1},{\"x\":4,\"y\":1},{\"x\":4,\"y\":2}]},{\"id\":\"gs_xXCmCWqdThFXPr8M9DjpYr6C\",\"name\":\"KyleDBoyd / k-snek\",\"health\":83,\"body\":[{\"x\":6,\"y\":8},{\"x\":7,\"y\":8},{\"x\":8,\"y\":8},{\"x\":9,\"y\":8},{\"x\":9,\"y\":9}]},{\"id\":\"gs_KrRQ6WqRbkDKvSHp4qFgpdyc\",\"name\":\"DevYves / snakey\",\"health\":70,\"body\":[{\"x\":3,\"y\":7},{\"x\":4,\"y\":7},{\"x\":4,\"y\":6},{\"x\":3,\"y\":6},{\"x\":2,\"y\":6}]},{\"id\":\"gs_q4h3S7jrrYGkTbg4T7ThSS9F\",\"name\":\"jonknoll / LeechySnake2018\",\"health\":92,\"body\":[{\"x\":4,\"y\":4},{\"x\":4,\"y\":5},{\"x\":5,\"y\":5},{\"x\":5,\"y\":4},{\"x\":5,\"y\":3},{\"x\":6,\"y\":3}]},{\"id\":\"gs_4Dwv3KX3GyVqvFcMY9htFXrB\",\"name\":\"lduchosal / boblee-0.13\",\"health\":66,\"body\":[{\"x\":8,\"y\":4},{\"x\":8,\"y\":5},{\"x\":7,\"y\":5}]},{\"id\":\"gs_C7bRvW4WmM7DBGMr6QhJ43VR\",\"name\":\"prplz / blockchain snake\",\"health\":92,\"body\":[{\"x\":7,\"y\":7},{\"x\":8,\"y\":7},{\"x\":9,\"y\":7},{\"x\":10,\"y\":7},{\"x\":10,\"y\":6},{\"x\":10,\"y\":5}]}]},\"you\":{\"id\":\"gs_4Dwv3KX3GyVqvFcMY9htFXrB\",\"name\":\"lduchosal / boblee-0.13\",\"health\":66,\"body\":[{\"x\":8,\"y\":4},{\"x\":8,\"y\":5},{\"x\":7,\"y\":5}]}}";
    let next = play(game);

    assert_eq!(next, Move::Up);

}

#[test]
fn test_eat_my_snake() {

    let game ="{\"game\":{\"id\":\"3f5918e3-d5f6-4542-b63d-5de9298843be\"},\"turn\":374,\"board\":{\"height\":19,\"width\":19,\"food\":[{\"x\":2,\"y\":1},{\"x\":3,\"y\":16},{\"x\":10,\"y\":2},{\"x\":2,\"y\":12},{\"x\":16,\"y\":18},{\"x\":15,\"y\":4},{\"x\":18,\"y\":7},{\"x\":17,\"y\":2},{\"x\":1,\"y\":17},{\"x\":16,\"y\":17},{\"x\":1,\"y\":7},{\"x\":2,\"y\":16},{\"x\":13,\"y\":4},{\"x\":10,\"y\":5},{\"x\":14,\"y\":15},{\"x\":5,\"y\":17},{\"x\":18,\"y\":12},{\"x\":2,\"y\":7},{\"x\":14,\"y\":3},{\"x\":4,\"y\":1},{\"x\":7,\"y\":5}],\"snakes\":[{\"id\":\"gs_ykHTrtwyjgf7f9mKTGPgRMSM\",\"name\":\"lduchosal / kimjon-0.14\",\"health\":4,\"body\":[{\"x\":10,\"y\":6},{\"x\":11,\"y\":6},{\"x\":12,\"y\":6},{\"x\":13,\"y\":6},{\"x\":14,\"y\":6},{\"x\":14,\"y\":7},{\"x\":14,\"y\":8},{\"x\":14,\"y\":9},{\"x\":14,\"y\":10},{\"x\":14,\"y\":11},{\"x\":13,\"y\":11},{\"x\":13,\"y\":12},{\"x\":12,\"y\":12},{\"x\":12,\"y\":11},{\"x\":12,\"y\":10},{\"x\":13,\"y\":10},{\"x\":13,\"y\":9},{\"x\":12,\"y\":9},{\"x\":12,\"y\":8}]}]},\"you\":{\"id\":\"gs_ykHTrtwyjgf7f9mKTGPgRMSM\",\"name\":\"lduchosal / kimjon-0.14\",\"health\":4,\"body\":[{\"x\":10,\"y\":6},{\"x\":11,\"y\":6},{\"x\":12,\"y\":6},{\"x\":13,\"y\":6},{\"x\":14,\"y\":6},{\"x\":14,\"y\":7},{\"x\":14,\"y\":8},{\"x\":14,\"y\":9},{\"x\":14,\"y\":10},{\"x\":14,\"y\":11},{\"x\":13,\"y\":11},{\"x\":13,\"y\":12},{\"x\":12,\"y\":12},{\"x\":12,\"y\":11},{\"x\":12,\"y\":10},{\"x\":13,\"y\":10},{\"x\":13,\"y\":9},{\"x\":12,\"y\":9},{\"x\":12,\"y\":8}]}}";
    let next = play(game);

    assert_eq!(next, Move::Up);
}

#[test]
fn test_enroule_ton_snake() {

    let game = "
    {\"game\":
        {\"id\":\"d770c179-7f52-45e3-bf85-288345f7a359\"},
        \"turn\":257,
        \"board\":{
            \"height\":11,
            \"width\":11,
            \"food\":[{\"x\":4,\"y\":0},{\"x\":1,\"y\":8}],
            \"snakes\":[
                {\"id\":\"gs_dQbRY6wwBmHx6cp994SKqrp6\",
                    \"name\":\"lduchosal / kimjon-0.14\",
                    \"health\":99,
                    \"body\":[{\"x\":7,\"y\":0},{\"x\":6,\"y\":0},{\"x\":5,\"y\":0},
                        {\"x\":5,\"y\":1},{\"x\":5,\"y\":2},{\"x\":5,\"y\":3},{\"x\":5,\"y\":4},
                        {\"x\":6,\"y\":4},
                        {\"x\":7,\"y\":4},
                        {\"x\":8,\"y\":4},
                        {\"x\":9,\"y\":4},{\"x\":9,\"y\":5},
                        {\"x\":10,\"y\":5},{\"x\":10,\"y\":6},{\"x\":10,\"y\":7},{\"x\":10,\"y\":8},
                        {\"x\":9,\"y\":8},
                        {\"x\":8,\"y\":8},
                        {\"x\":7,\"y\":8},
                        {\"x\":7,\"y\":9}]},

                {\"id\":\"gs_wrrQW4TFXPdQfrDCFfh6vfDM\",
                    \"name\":\"zijian-chen96 / pinkpinkpig\",
                    \"health\":29,
                    \"body\":[
                        {\"x\":2,\"y\":3},{\"x\":2,\"y\":2},
                        {\"x\":3,\"y\":2},{\"x\":3,\"y\":1},
                        {\"x\":4,\"y\":1},{\"x\":4,\"y\":2},{\"x\":4,\"y\":3},{\"x\":4,\"y\":4},{\"x\":4,\"y\":5},{\"x\":4,\"y\":6},{\"x\":4,\"y\":7},{\"x\":4,\"y\":8},
                        {\"x\":3,\"y\":8}]}
                ]},
            \"you\":{
                \"id\":\"gs_dQbRY6wwBmHx6cp994SKqrp6\",
                \"name\":\"lduchosal / kimjon-0.14\",
                \"health\":99,
                \"body\":[{\"x\":7,\"y\":0},{\"x\":6,\"y\":0},{\"x\":5,\"y\":0},{\"x\":5,\"y\":1},{\"x\":5,\"y\":2},{\"x\":5,\"y\":3},{\"x\":5,\"y\":4},{\"x\":6,\"y\":4},{\"x\":7,\"y\":4},{\"x\":8,\"y\":4},{\"x\":9,\"y\":4},{\"x\":9,\"y\":5},{\"x\":10,\"y\":5},{\"x\":10,\"y\":6},{\"x\":10,\"y\":7},{\"x\":10,\"y\":8},{\"x\":9,\"y\":8},{\"x\":8,\"y\":8},{\"x\":7,\"y\":8},{\"x\":7,\"y\":9}]}}";

    play(game);
}

#[test]
fn test() {

    let game = "{\"game\":{\"id\":\"36aab8cc-ee81-48e7-94f3-fe2e27c92abe\"},\"turn\":78,\"board\":{\"height\":11,\"width\":11,\"food\":[{\"x\":7,\"y\":0},{\"x\":9,\"y\":2},{\"x\":1,\"y\":1}],\"snakes\":[{\"id\":\"gs_WgVH9DYDyTDyJ3SvYMDtgWwB\",\"name\":\"lduchosal / charlesmanson-dev-online\",\"health\":98,\"body\":[{\"x\":0,\"y\":6},{\"x\":1,\"y\":6},{\"x\":2,\"y\":6},{\"x\":3,\"y\":6},{\"x\":4,\"y\":6},{\"x\":5,\"y\":6},{\"x\":6,\"y\":6},{\"x\":7,\"y\":6}]}]},\"you\":{\"id\":\"gs_WgVH9DYDyTDyJ3SvYMDtgWwB\",\"name\":\"lduchosal / charlesmanson-dev-online\",\"health\":98,\"body\":[{\"x\":0,\"y\":6},{\"x\":1,\"y\":6},{\"x\":2,\"y\":6},{\"x\":3,\"y\":6},{\"x\":4,\"y\":6},{\"x\":5,\"y\":6},{\"x\":6,\"y\":6},{\"x\":7,\"y\":6}]}}";

    play(game);

}

#[test]
fn test_panic() {

    let game = "{\"game\":{\"id\":\"3a7a940f-6790-457f-aaf2-bc6711915d24\"},\"turn\":520,\"board\":{\"height\":11,\"width\":11,\"food\":[{\"x\":10,\"y\":10},{\"x\":1,\"y\":0},{\"x\":6,\"y\":10},{\"x\":9,\"y\":4},{\"x\":8,\"y\":2},{\"x\":5,\"y\":8}],\"snakes\":[{\"id\":\"gs_JKthCR7JhDktSWp3gyGVhQGX\",\"name\":\"lduchosal / albertfish-dev\",\"health\":87,\"body\":[{\"x\":1,\"y\":5},{\"x\":2,\"y\":5},{\"x\":2,\"y\":4},{\"x\":2,\"y\":3},{\"x\":1,\"y\":3},{\"x\":1,\"y\":4},{\"x\":0,\"y\":4},{\"x\":0,\"y\":5},{\"x\":0,\"y\":6},{\"x\":1,\"y\":6},{\"x\":2,\"y\":6},{\"x\":2,\"y\":7},{\"x\":2,\"y\":8},{\"x\":1,\"y\":8},{\"x\":0,\"y\":8},{\"x\":0,\"y\":9},{\"x\":1,\"y\":9},{\"x\":2,\"y\":9},{\"x\":3,\"y\":9},{\"x\":3,\"y\":8},{\"x\":3,\"y\":7},{\"x\":4,\"y\":7},{\"x\":4,\"y\":6},{\"x\":3,\"y\":6},{\"x\":3,\"y\":5},{\"x\":3,\"y\":4},{\"x\":3,\"y\":3},{\"x\":3,\"y\":2},{\"x\":2,\"y\":2},{\"x\":1,\"y\":2},{\"x\":0,\"y\":2},{\"x\":0,\"y\":1},{\"x\":1,\"y\":1},{\"x\":2,\"y\":1},{\"x\":3,\"y\":1},{\"x\":4,\"y\":1},{\"x\":4,\"y\":2},{\"x\":5,\"y\":2},{\"x\":5,\"y\":3},{\"x\":4,\"y\":3},{\"x\":4,\"y\":4},{\"x\":5,\"y\":4},{\"x\":6,\"y\":4},{\"x\":7,\"y\":4},{\"x\":7,\"y\":5},{\"x\":8,\"y\":5},{\"x\":9,\"y\":5},{\"x\":10,\"y\":5}]}]},\"you\":{\"id\":\"gs_JKthCR7JhDktSWp3gyGVhQGX\",\"name\":\"lduchosal / albertfish-dev\",\"health\":87,\"body\":[{\"x\":1,\"y\":5},{\"x\":2,\"y\":5},{\"x\":2,\"y\":4},{\"x\":2,\"y\":3},{\"x\":1,\"y\":3},{\"x\":1,\"y\":4},{\"x\":0,\"y\":4},{\"x\":0,\"y\":5},{\"x\":0,\"y\":6},{\"x\":1,\"y\":6},{\"x\":2,\"y\":6},{\"x\":2,\"y\":7},{\"x\":2,\"y\":8},{\"x\":1,\"y\":8},{\"x\":0,\"y\":8},{\"x\":0,\"y\":9},{\"x\":1,\"y\":9},{\"x\":2,\"y\":9},{\"x\":3,\"y\":9},{\"x\":3,\"y\":8},{\"x\":3,\"y\":7},{\"x\":4,\"y\":7},{\"x\":4,\"y\":6},{\"x\":3,\"y\":6},{\"x\":3,\"y\":5},{\"x\":3,\"y\":4},{\"x\":3,\"y\":3},{\"x\":3,\"y\":2},{\"x\":2,\"y\":2},{\"x\":1,\"y\":2},{\"x\":0,\"y\":2},{\"x\":0,\"y\":1},{\"x\":1,\"y\":1},{\"x\":2,\"y\":1},{\"x\":3,\"y\":1},{\"x\":4,\"y\":1},{\"x\":4,\"y\":2},{\"x\":5,\"y\":2},{\"x\":5,\"y\":3},{\"x\":4,\"y\":3},{\"x\":4,\"y\":4},{\"x\":5,\"y\":4},{\"x\":6,\"y\":4},{\"x\":7,\"y\":4},{\"x\":7,\"y\":5},{\"x\":8,\"y\":5},{\"x\":9,\"y\":5},{\"x\":10,\"y\":5}]}}";
    play(game);

}

#[test]
fn test_food() {

    let game = "{\"game\":{\"id\":\"55cbf87a-3bf5-4137-b985-4d3c38ebe69b\"},\"turn\":15,\"board\":{\"height\":11,\"width\":11,\"food\":[{\"x\":2,\"y\":4},{\"x\":3,\"y\":9}],\"snakes\":[{\"id\":\"gs_CmFXRMdmvxkkjYm6QtDxVYbG\",\"name\":\"s4-ricky / Turing Snake\",\"health\":100,\"body\":[{\"x\":5,\"y\":2},{\"x\":5,\"y\":1},{\"x\":5,\"y\":0},{\"x\":4,\"y\":0},{\"x\":4,\"y\":1},{\"x\":4,\"y\":1}]},{\"id\":\"gs_gq3RmBrWXfjGqy9yyGCyqkMR\",\"name\":\"chunthebear / Behir\",\"health\":100,\"body\":[{\"x\":6,\"y\":9},{\"x\":7,\"y\":9},{\"x\":8,\"y\":9},{\"x\":9,\"y\":9},{\"x\":9,\"y\":8},{\"x\":9,\"y\":8}]},{\"id\":\"gs_bHSkfffHVxqCfW8XHtdvfTjT\",\"name\":\"tagg7 / SNAKEFACE 2.0\",\"health\":98,\"body\":[{\"x\":5,\"y\":10},{\"x\":6,\"y\":10},{\"x\":7,\"y\":10},{\"x\":8,\"y\":10}]},{\"id\":\"gs_hV4fwPtH6RCCkDdqgfSFWTgK\",\"name\":\"lduchosal / albertfish-dev\",\"health\":85,\"body\":[{\"x\":3,\"y\":4},{\"x\":3,\"y\":5},{\"x\":4,\"y\":5}]}]},\"you\":{\"id\":\"gs_hV4fwPtH6RCCkDdqgfSFWTgK\",\"name\":\"lduchosal / albertfish-dev\",\"health\":85,\"body\":[{\"x\":3,\"y\":4},{\"x\":3,\"y\":5},{\"x\":4,\"y\":5}]}}";
    play(game);

}

#[test]
fn test_food_bug() {

    let game = "{\"game\":{\"id\":\"d395766e-f411-4800-8184-0be8aa35d6ae\"},\"turn\":432,\"board\":{\"height\":19,\"width\":19,\"food\":[{\"x\":3,\"y\":13},{\"x\":1,\"y\":9},{\"x\":1,\"y\":15},{\"x\":1,\"y\":14}],\"snakes\":[{\"id\":\"gs_BdRKFSDS8SMFkfTpSxhTGpCF\",\"name\":\"lduchosal / albertfish-dev\",\"health\":90,\"body\":[{\"x\":9,\"y\":11},{\"x\":8,\"y\":11},{\"x\":8,\"y\":12},{\"x\":8,\"y\":13},{\"x\":9,\"y\":13},{\"x\":10,\"y\":13},{\"x\":10,\"y\":12},{\"x\":10,\"y\":11},{\"x\":11,\"y\":11},{\"x\":12,\"y\":11},{\"x\":13,\"y\":11},{\"x\":13,\"y\":12},{\"x\":12,\"y\":12},{\"x\":12,\"y\":13},{\"x\":11,\"y\":13},{\"x\":11,\"y\":14},{\"x\":10,\"y\":14},{\"x\":10,\"y\":15},{\"x\":9,\"y\":15},{\"x\":8,\"y\":15},{\"x\":8,\"y\":16},{\"x\":8,\"y\":17},{\"x\":7,\"y\":17},{\"x\":7,\"y\":16},{\"x\":7,\"y\":15},{\"x\":7,\"y\":14},{\"x\":7,\"y\":13},{\"x\":7,\"y\":12},{\"x\":7,\"y\":11},{\"x\":7,\"y\":10},{\"x\":8,\"y\":10},{\"x\":8,\"y\":9},{\"x\":8,\"y\":8},{\"x\":8,\"y\":7},{\"x\":9,\"y\":7},{\"x\":10,\"y\":7},{\"x\":11,\"y\":7},{\"x\":11,\"y\":6},{\"x\":11,\"y\":5},{\"x\":11,\"y\":4},{\"x\":12,\"y\":4}]}]},\"you\":{\"id\":\"gs_BdRKFSDS8SMFkfTpSxhTGpCF\",\"name\":\"lduchosal / albertfish-dev\",\"health\":90,\"body\":[{\"x\":9,\"y\":11},{\"x\":8,\"y\":11},{\"x\":8,\"y\":12},{\"x\":8,\"y\":13},{\"x\":9,\"y\":13},{\"x\":10,\"y\":13},{\"x\":10,\"y\":12},{\"x\":10,\"y\":11},{\"x\":11,\"y\":11},{\"x\":12,\"y\":11},{\"x\":13,\"y\":11},{\"x\":13,\"y\":12},{\"x\":12,\"y\":12},{\"x\":12,\"y\":13},{\"x\":11,\"y\":13},{\"x\":11,\"y\":14},{\"x\":10,\"y\":14},{\"x\":10,\"y\":15},{\"x\":9,\"y\":15},{\"x\":8,\"y\":15},{\"x\":8,\"y\":16},{\"x\":8,\"y\":17},{\"x\":7,\"y\":17},{\"x\":7,\"y\":16},{\"x\":7,\"y\":15},{\"x\":7,\"y\":14},{\"x\":7,\"y\":13},{\"x\":7,\"y\":12},{\"x\":7,\"y\":11},{\"x\":7,\"y\":10},{\"x\":8,\"y\":10},{\"x\":8,\"y\":9},{\"x\":8,\"y\":8},{\"x\":8,\"y\":7},{\"x\":9,\"y\":7},{\"x\":10,\"y\":7},{\"x\":11,\"y\":7},{\"x\":11,\"y\":6},{\"x\":11,\"y\":5},{\"x\":11,\"y\":4},{\"x\":12,\"y\":4}]}}";
    let next = play(game);

    assert_eq!(next, Move::Up);

}

#[test]
fn test_too_hungry() {

    let game = "{\"game\":{\"id\":\"068a60c3-41f9-4801-bb1b-0b29bcad580c\"},\"turn\":62,\"board\":{\"height\":11,\"width\":11,\"food\":[{\"x\":7,\"y\":10},{\"x\":2,\"y\":7}],\"snakes\":[{\"id\":\"gs_MY3MPw9d7YMwddqmpxMCk3BY\",\"name\":\"tmastrom / tommy_yum\",\"health\":98,\"body\":[{\"x\":10,\"y\":4},{\"x\":10,\"y\":3},{\"x\":10,\"y\":2},{\"x\":10,\"y\":1},{\"x\":9,\"y\":1},{\"x\":9,\"y\":0},{\"x\":8,\"y\":0},{\"x\":7,\"y\":0},{\"x\":6,\"y\":0}]},{\"id\":\"gs_Px7dBQ88xqmXHMjKqDxftWm9\",\"name\":\"CyrusSA / Jah-Snake\",\"health\":100,\"body\":[{\"x\":8,\"y\":10},{\"x\":8,\"y\":9},{\"x\":8,\"y\":8},{\"x\":9,\"y\":8},{\"x\":9,\"y\":8}]},{\"id\":\"gs_d8qRXT3JtWf3HywSVcXMMXb7\",\"name\":\"CptMayday / One Snek - Two Snek\",\"health\":94,\"body\":[{\"x\":3,\"y\":3},{\"x\":3,\"y\":4},{\"x\":3,\"y\":5},{\"x\":4,\"y\":5},{\"x\":5,\"y\":5}]},{\"id\":\"gs_cJP96brgg6PYx8gC6KxWjbqT\",\"name\":\"lduchosal / robknox-0.12\",\"health\":100,\"body\":[{\"x\":7,\"y\":9},{\"x\":6,\"y\":9},{\"x\":5,\"y\":9},{\"x\":5,\"y\":10},{\"x\":4,\"y\":10},{\"x\":3,\"y\":10},{\"x\":2,\"y\":10},{\"x\":2,\"y\":10}]}]},\"you\":{\"id\":\"gs_cJP96brgg6PYx8gC6KxWjbqT\",\"name\":\"lduchosal / robknox-0.12\",\"health\":100,\"body\":[{\"x\":7,\"y\":9},{\"x\":6,\"y\":9},{\"x\":5,\"y\":9},{\"x\":5,\"y\":10},{\"x\":4,\"y\":10},{\"x\":3,\"y\":10},{\"x\":2,\"y\":10},{\"x\":2,\"y\":10}]}}";
    let next = play(game);

    assert_eq!(next, Move::Up);


}

#[test]
fn test_too_keep_on_following_tail() {

    let game = "{\"game\":{\"id\":\"ea6e9712-b306-4526-a34d-180e1beaa42a\"},\"turn\":907,\"board\":{\"height\":11,\"width\":11,\"food\":[{\"x\":7,\"y\":9},{\"x\":7,\"y\":2},{\"x\":9,\"y\":2}],\"snakes\":[{\"id\":\"gs_hCwhtHpy8RTkrJh7M464BX8P\",\"name\":\"lduchosal / robknox-dev\",\"health\":99,\"body\":[{\"x\":10,\"y\":9},{\"x\":9,\"y\":9},{\"x\":9,\"y\":8},{\"x\":9,\"y\":7},{\"x\":9,\"y\":6},{\"x\":10,\"y\":6},{\"x\":10,\"y\":5},{\"x\":9,\"y\":5},{\"x\":8,\"y\":5},{\"x\":8,\"y\":4},{\"x\":8,\"y\":3},{\"x\":9,\"y\":3},{\"x\":9,\"y\":4},{\"x\":10,\"y\":4},{\"x\":10,\"y\":3},{\"x\":10,\"y\":2},{\"x\":10,\"y\":1},{\"x\":10,\"y\":0},{\"x\":9,\"y\":0},{\"x\":8,\"y\":0},{\"x\":7,\"y\":0},{\"x\":7,\"y\":1},{\"x\":6,\"y\":1},{\"x\":5,\"y\":1},{\"x\":4,\"y\":1},{\"x\":4,\"y\":0},{\"x\":3,\"y\":0},{\"x\":2,\"y\":0},{\"x\":2,\"y\":1},{\"x\":2,\"y\":2},{\"x\":2,\"y\":3},{\"x\":3,\"y\":3},{\"x\":3,\"y\":4},{\"x\":3,\"y\":5},{\"x\":4,\"y\":5},{\"x\":4,\"y\":6},{\"x\":3,\"y\":6},{\"x\":3,\"y\":7},{\"x\":2,\"y\":7},{\"x\":2,\"y\":6},{\"x\":2,\"y\":5},{\"x\":2,\"y\":4},{\"x\":1,\"y\":4},{\"x\":1,\"y\":3},{\"x\":1,\"y\":2},{\"x\":1,\"y\":1},{\"x\":1,\"y\":0},{\"x\":0,\"y\":0},{\"x\":0,\"y\":1},{\"x\":0,\"y\":2},{\"x\":0,\"y\":3},{\"x\":0,\"y\":4},{\"x\":0,\"y\":5},{\"x\":0,\"y\":6},{\"x\":1,\"y\":6},{\"x\":1,\"y\":7},{\"x\":1,\"y\":8},{\"x\":2,\"y\":8},{\"x\":3,\"y\":8},{\"x\":4,\"y\":8},{\"x\":4,\"y\":9},{\"x\":3,\"y\":9},{\"x\":3,\"y\":10},{\"x\":4,\"y\":10},{\"x\":5,\"y\":10},{\"x\":5,\"y\":9},{\"x\":5,\"y\":8},{\"x\":5,\"y\":7},{\"x\":6,\"y\":7},{\"x\":6,\"y\":6},{\"x\":6,\"y\":5},{\"x\":6,\"y\":4},{\"x\":5,\"y\":4},{\"x\":5,\"y\":3},{\"x\":6,\"y\":3},{\"x\":7,\"y\":3},{\"x\":7,\"y\":4},{\"x\":7,\"y\":5},{\"x\":7,\"y\":6},{\"x\":7,\"y\":7},{\"x\":8,\"y\":7},{\"x\":8,\"y\":8},{\"x\":8,\"y\":9},{\"x\":8,\"y\":10},{\"x\":9,\"y\":10},{\"x\":10,\"y\":10}]}]},\"you\":{\"id\":\"gs_hCwhtHpy8RTkrJh7M464BX8P\",\"name\":\"lduchosal / robknox-dev\",\"health\":99,\"body\":[{\"x\":10,\"y\":9},{\"x\":9,\"y\":9},{\"x\":9,\"y\":8},{\"x\":9,\"y\":7},{\"x\":9,\"y\":6},{\"x\":10,\"y\":6},{\"x\":10,\"y\":5},{\"x\":9,\"y\":5},{\"x\":8,\"y\":5},{\"x\":8,\"y\":4},{\"x\":8,\"y\":3},{\"x\":9,\"y\":3},{\"x\":9,\"y\":4},{\"x\":10,\"y\":4},{\"x\":10,\"y\":3},{\"x\":10,\"y\":2},{\"x\":10,\"y\":1},{\"x\":10,\"y\":0},{\"x\":9,\"y\":0},{\"x\":8,\"y\":0},{\"x\":7,\"y\":0},{\"x\":7,\"y\":1},{\"x\":6,\"y\":1},{\"x\":5,\"y\":1},{\"x\":4,\"y\":1},{\"x\":4,\"y\":0},{\"x\":3,\"y\":0},{\"x\":2,\"y\":0},{\"x\":2,\"y\":1},{\"x\":2,\"y\":2},{\"x\":2,\"y\":3},{\"x\":3,\"y\":3},{\"x\":3,\"y\":4},{\"x\":3,\"y\":5},{\"x\":4,\"y\":5},{\"x\":4,\"y\":6},{\"x\":3,\"y\":6},{\"x\":3,\"y\":7},{\"x\":2,\"y\":7},{\"x\":2,\"y\":6},{\"x\":2,\"y\":5},{\"x\":2,\"y\":4},{\"x\":1,\"y\":4},{\"x\":1,\"y\":3},{\"x\":1,\"y\":2},{\"x\":1,\"y\":1},{\"x\":1,\"y\":0},{\"x\":0,\"y\":0},{\"x\":0,\"y\":1},{\"x\":0,\"y\":2},{\"x\":0,\"y\":3},{\"x\":0,\"y\":4},{\"x\":0,\"y\":5},{\"x\":0,\"y\":6},{\"x\":1,\"y\":6},{\"x\":1,\"y\":7},{\"x\":1,\"y\":8},{\"x\":2,\"y\":8},{\"x\":3,\"y\":8},{\"x\":4,\"y\":8},{\"x\":4,\"y\":9},{\"x\":3,\"y\":9},{\"x\":3,\"y\":10},{\"x\":4,\"y\":10},{\"x\":5,\"y\":10},{\"x\":5,\"y\":9},{\"x\":5,\"y\":8},{\"x\":5,\"y\":7},{\"x\":6,\"y\":7},{\"x\":6,\"y\":6},{\"x\":6,\"y\":5},{\"x\":6,\"y\":4},{\"x\":5,\"y\":4},{\"x\":5,\"y\":3},{\"x\":6,\"y\":3},{\"x\":7,\"y\":3},{\"x\":7,\"y\":4},{\"x\":7,\"y\":5},{\"x\":7,\"y\":6},{\"x\":7,\"y\":7},{\"x\":8,\"y\":7},{\"x\":8,\"y\":8},{\"x\":8,\"y\":9},{\"x\":8,\"y\":10},{\"x\":9,\"y\":10},{\"x\":10,\"y\":10}]}}";
    let next = play(game);

    assert_eq!(next, Move::Down);

}

#[test]
fn test_mange_la_pomme_2() {
    let game = "{\"game\":{\"id\":\"c896dce2-77ac-4380-9ec4-ca5869935590\"},\"turn\":43,\"board\":{\"height\":11,\"width\":11,\"food\":[{\"x\":5,\"y\":3},{\"x\":6,\"y\":3},{\"x\":9,\"y\":0}],\"snakes\":[{\"id\":\"gs_YM33Y3QDBrmjSWKhdgMwvK8C\",\"name\":\"woofers / 🐍  \u{200f}\u{200f}\u{200e} 𝙎𝙐𝙋𝙀𝙍 𝙎𝙇𝙄𝙈𝙀𝙔   \u{200f}\u{200f}\u{200e} 🐍\",\"health\":92,\"body\":[{\"x\":2,\"y\":5},{\"x\":3,\"y\":5},{\"x\":4,\"y\":5},{\"x\":4,\"y\":6},{\"x\":4,\"y\":7},{\"x\":4,\"y\":8},{\"x\":3,\"y\":8}]},{\"id\":\"gs_ccdvBRRHvcWQW8hjpS6hrYjP\",\"name\":\"xtagon / Nagini\",\"health\":75,\"body\":[{\"x\":8,\"y\":7},{\"x\":7,\"y\":7},{\"x\":7,\"y\":6},{\"x\":6,\"y\":6},{\"x\":6,\"y\":5},{\"x\":7,\"y\":5}]},{\"id\":\"gs_MRc6wbw8Hd4fGjSbghptJfx3\",\"name\":\"lduchosal / boblee-0.13\",\"health\":92,\"body\":[{\"x\":4,\"y\":3},{\"x\":4,\"y\":4},{\"x\":5,\"y\":4},{\"x\":5,\"y\":5},{\"x\":5,\"y\":6},{\"x\":5,\"y\":7}]},{\"id\":\"gs_dMrW7xTrxV6JYpDTS3XPhxhC\",\"name\":\"jhawthorn / Git Adder (experimental)\",\"health\":77,\"body\":[{\"x\":9,\"y\":4},{\"x\":10,\"y\":4},{\"x\":10,\"y\":5},{\"x\":10,\"y\":6},{\"x\":9,\"y\":6}]},{\"id\":\"gs_fwbXBmvyVwjRFwqDMYBtKdv9\",\"name\":\"jonknoll / Schneider Electric Schnake\",\"health\":99,\"body\":[{\"x\":2,\"y\":3},{\"x\":2,\"y\":4},{\"x\":3,\"y\":4},{\"x\":3,\"y\":3}]}]},\"you\":{\"id\":\"gs_MRc6wbw8Hd4fGjSbghptJfx3\",\"name\":\"lduchosal / boblee-0.13\",\"health\":92,\"body\":[{\"x\":4,\"y\":3},{\"x\":4,\"y\":4},{\"x\":5,\"y\":4},{\"x\":5,\"y\":5},{\"x\":5,\"y\":6},{\"x\":5,\"y\":7}]}}";
    let next = play(game);

    assert_eq!(next, Move::Right);
}

#[test]
fn mange_la_pomme_2_values() {
    let game = "{\"game\":{\"id\":\"c896dce2-77ac-4380-9ec4-ca5869935590\"},\"turn\":43,\"board\":{\"height\":11,\"width\":11,\"food\":[{\"x\":5,\"y\":3},{\"x\":6,\"y\":3},{\"x\":9,\"y\":0}],\"snakes\":[{\"id\":\"gs_YM33Y3QDBrmjSWKhdgMwvK8C\",\"name\":\"woofers / 🐍  \u{200f}\u{200f}\u{200e} 𝙎𝙐𝙋𝙀𝙍 𝙎𝙇𝙄𝙈𝙀𝙔   \u{200f}\u{200f}\u{200e} 🐍\",\"health\":92,\"body\":[{\"x\":2,\"y\":5},{\"x\":3,\"y\":5},{\"x\":4,\"y\":5},{\"x\":4,\"y\":6},{\"x\":4,\"y\":7},{\"x\":4,\"y\":8},{\"x\":3,\"y\":8}]},{\"id\":\"gs_ccdvBRRHvcWQW8hjpS6hrYjP\",\"name\":\"xtagon / Nagini\",\"health\":75,\"body\":[{\"x\":8,\"y\":7},{\"x\":7,\"y\":7},{\"x\":7,\"y\":6},{\"x\":6,\"y\":6},{\"x\":6,\"y\":5},{\"x\":7,\"y\":5}]},{\"id\":\"gs_MRc6wbw8Hd4fGjSbghptJfx3\",\"name\":\"lduchosal / boblee-0.13\",\"health\":92,\"body\":[{\"x\":4,\"y\":3},{\"x\":4,\"y\":4},{\"x\":5,\"y\":4},{\"x\":5,\"y\":5},{\"x\":5,\"y\":6},{\"x\":5,\"y\":7}]},{\"id\":\"gs_dMrW7xTrxV6JYpDTS3XPhxhC\",\"name\":\"jhawthorn / Git Adder (experimental)\",\"health\":77,\"body\":[{\"x\":9,\"y\":4},{\"x\":10,\"y\":4},{\"x\":10,\"y\":5},{\"x\":10,\"y\":6},{\"x\":9,\"y\":6}]},{\"id\":\"gs_fwbXBmvyVwjRFwqDMYBtKdv9\",\"name\":\"jonknoll / Schneider Electric Schnake\",\"health\":99,\"body\":[{\"x\":2,\"y\":3},{\"x\":2,\"y\":4},{\"x\":3,\"y\":4},{\"x\":3,\"y\":3}]}]},\"you\":{\"id\":\"gs_MRc6wbw8Hd4fGjSbghptJfx3\",\"name\":\"lduchosal / boblee-0.13\",\"health\":92,\"body\":[{\"x\":4,\"y\":3},{\"x\":4,\"y\":4},{\"x\":5,\"y\":4},{\"x\":5,\"y\":5},{\"x\":5,\"y\":6},{\"x\":5,\"y\":7}]}}";
    let ps = rated(game);
    // The food on the right beats the tail of the shorter snake on the left,
    // which is farther from our own tail. Each candidate's tail bonus counts
    // its own distance to our tail (4 for Right, 6 for Left). Were the
    // smallest distance met so far carried on from one candidate to the
    // next, in the food-distance order (Right, Up, Down, Left), Left would
    // keep the 1 that Right earns and win 34 to 33, against
    // test_mange_la_pomme_2.
    let tail_bonus = |dir: Move| ps.iter().find(|p| p.dir == dir).unwrap().look_for_tail;
    assert_eq!(tail_bonus(Move::Right), 1);
    assert_eq!(tail_bonus(Move::Up), -1);
    assert_eq!(tail_bonus(Move::Down), 1);
    assert_eq!(tail_bonus(Move::Left), -1);
    assert_eq!(value_of(&ps, Move::Right), 33);
    assert_eq!(value_of(&ps, Move::Left), 32);
    assert_eq!(value_of(&ps, Move::Up), 18);
    assert_eq!(value_of(&ps, Move::Down), -86);
}

#[test]
fn test_food_distance() {
    let game = "{\"game\":{\"id\":\"e2e2f508-e1a4-452c-b33b-b053b3f8b217\"},\"turn\":0,\"board\":{\"height\":11,\"width\":11,\"food\":[{\"x\":10,\"y\":4}],\"snakes\":[{\"id\":\"gs_VJb3DHBtw8fdBVMv4KTFG3YV\",\"name\":\"lduchosal / albertfish-dev\",\"health\":100,\"body\":[{\"x\":1,\"y\":1},{\"x\":1,\"y\":1},{\"x\":1,\"y\":1}]}]},\"you\":{\"id\":\"gs_VJb3DHBtw8fdBVMv4KTFG3YV\",\"name\":\"lduchosal / albertfish-dev\",\"health\":100,\"body\":[{\"x\":1,\"y\":1},{\"x\":1,\"y\":1},{\"x\":1,\"y\":1}]}}";
    let mut ps = rated(game);
    // Right and Down both score 28, above Up and Left: the random tie-breaker
    // chooses between them. Here the draw is set so that Right wins it.
    assert_eq!(value_of(&ps, Move::Right), 28);
    assert_eq!(value_of(&ps, Move::Down), 28);
    assert_eq!(value_of(&ps, Move::Up), 23);
    assert_eq!(value_of(&ps, Move::Left), 23);
    draw_for(&mut ps, Move::Right);
    let next = best_fit(&mut ps);

    assert_eq!(next, Move::Right);
}

#[test]
fn test_forward_think_better() {
    let game = "{\"game\":{\"id\":\"7ab8e619-c7c3-47fa-9eb2-4cb3470a2dfa\"},\"turn\":533,\"board\":{\"height\":11,\"width\":11,\"food\":[{\"x\":8,\"y\":7},{\"x\":9,\"y\":4}],\"snakes\":[{\"id\":\"gs_VqGdRdgP8Bc8t3rrYF4PhHB6\",\"name\":\"lduchosal / dev\",\"health\":85,\"body\":[{\"x\":5,\"y\":4},{\"x\":5,\"y\":5},{\"x\":4,\"y\":5},{\"x\":3,\"y\":5},{\"x\":2,\"y\":5},{\"x\":1,\"y\":5},{\"x\":1,\"y\":6},{\"x\":0,\"y\":6},{\"x\":0,\"y\":7},{\"x\":1,\"y\":7},{\"x\":2,\"y\":7},{\"x\":2,\"y\":6},{\"x\":3,\"y\":6},{\"x\":3,\"y\":7},{\"x\":3,\"y\":8},{\"x\":2,\"y\":8},{\"x\":2,\"y\":9},{\"x\":3,\"y\":9},{\"x\":4,\"y\":9},{\"x\":4,\"y\":10},{\"x\":5,\"y\":10},{\"x\":6,\"y\":10},{\"x\":7,\"y\":10},{\"x\":7,\"y\":9},{\"x\":8,\"y\":9},{\"x\":8,\"y\":8},{\"x\":7,\"y\":8},{\"x\":6,\"y\":8},{\"x\":6,\"y\":9},{\"x\":5,\"y\":9},{\"x\":5,\"y\":8},{\"x\":4,\"y\":8},{\"x\":4,\"y\":7},{\"x\":4,\"y\":6},{\"x\":5,\"y\":6},{\"x\":6,\"y\":6},{\"x\":6,\"y\":5},{\"x\":7,\"y\":5},{\"x\":7,\"y\":4},{\"x\":7,\"y\":3},{\"x\":6,\"y\":3},{\"x\":6,\"y\":2},{\"x\":5,\"y\":2},{\"x\":5,\"y\":1},{\"x\":5,\"y\":0},{\"x\":4,\"y\":0},{\"x\":3,\"y\":0},{\"x\":2,\"y\":0},{\"x\":1,\"y\":0},{\"x\":1,\"y\":1},{\"x\":0,\"y\":1},{\"x\":0,\"y\":2},{\"x\":0,\"y\":3}]}]},\"you\":{\"id\":\"gs_VqGdRdgP8Bc8t3rrYF4PhHB6\",\"name\":\"lduchosal / dev\",\"health\":85,\"body\":[{\"x\":5,\"y\":4},{\"x\":5,\"y\":5},{\"x\":4,\"y\":5},{\"x\":3,\"y\":5},{\"x\":2,\"y\":5},{\"x\":1,\"y\":5},{\"x\":1,\"y\":6},{\"x\":0,\"y\":6},{\"x\":0,\"y\":7},{\"x\":1,\"y\":7},{\"x\":2,\"y\":7},{\"x\":2,\"y\":6},{\"x\":3,\"y\":6},{\"x\":3,\"y\":7},{\"x\":3,\"y\":8},{\"x\":2,\"y\":8},{\"x\":2,\"y\":9},{\"x\":3,\"y\":9},{\"x\":4,\"y\":9},{\"x\":4,\"y\":10},{\"x\":5,\"y\":10},{\"x\":6,\"y\":10},{\"x\":7,\"y\":10},{\"x\":7,\"y\":9},{\"x\":8,\"y\":9},{\"x\":8,\"y\":8},{\"x\":7,\"y\":8},{\"x\":6,\"y\":8},{\"x\":6,\"y\":9},{\"x\":5,\"y\":9},{\"x\":5,\"y\":8},{\"x\":4,\"y\":8},{\"x\":4,\"y\":7},{\"x\":4,\"y\":6},{\"x\":5,\"y\":6},{\"x\":6,\"y\":6},{\"x\":6,\"y\":5},{\"x\":7,\"y\":5},{\"x\":7,\"y\":4},{\"x\":7,\"y\":3},{\"x\":6,\"y\":3},{\"x\":6,\"y\":2},{\"x\":5,\"y\":2},{\"x\":5,\"y\":1},{\"x\":5,\"y\":0},{\"x\":4,\"y\":0},{\"x\":3,\"y\":0},{\"x\":2,\"y\":0},{\"x\":1,\"y\":0},{\"x\":1,\"y\":1},{\"x\":0,\"y\":1},{\"x\":0,\"y\":2},{\"x\":0,\"y\":3}]}}";
    let mut ps = rated(game);
    // Up and Left both score -7, above Right and Down: the random tie-breaker
    // chooses between them. Here the draw is set so that Up wins it.
    assert_eq!(value_of(&ps, Move::Up), -7);
    assert_eq!(value_of(&ps, Move::Left), -7);
    assert_eq!(value_of(&ps, Move::Right), -10);
    assert_eq!(value_of(&ps, Move::Down), -88);
    draw_for(&mut ps, Move::Up);
    let next = best_fit(&mut ps);

    assert_eq!(next, Move::Up);
}

#[test]
fn panic_game_has_no_path_ahead() {
    let game = "{\"game\":{\"id\":\"3a7a940f-6790-457f-aaf2-bc6711915d24\"},\"turn\":520,\"board\":{\"height\":11,\"width\":11,\"food\":[{\"x\":10,\"y\":10},{\"x\":1,\"y\":0},{\"x\":6,\"y\":10},{\"x\":9,\"y\":4},{\"x\":8,\"y\":2},{\"x\":5,\"y\":8}],\"snakes\":[{\"id\":\"gs_JKthCR7JhDktSWp3gyGVhQGX\",\"name\":\"lduchosal / albertfish-dev\",\"health\":87,\"body\":[{\"x\":1,\"y\":5},{\"x\":2,\"y\":5},{\"x\":2,\"y\":4},{\"x\":2,\"y\":3},{\"x\":1,\"y\":3},{\"x\":1,\"y\":4},{\"x\":0,\"y\":4},{\"x\":0,\"y\":5},{\"x\":0,\"y\":6},{\"x\":1,\"y\":6},{\"x\":2,\"y\":6},{\"x\":2,\"y\":7},{\"x\":2,\"y\":8},{\"x\":1,\"y\":8},{\"x\":0,\"y\":8},{\"x\":0,\"y\":9},{\"x\":1,\"y\":9},{\"x\":2,\"y\":9},{\"x\":3,\"y\":9},{\"x\":3,\"y\":8},{\"x\":3,\"y\":7},{\"x\":4,\"y\":7},{\"x\":4,\"y\":6},{\"x\":3,\"y\":6},{\"x\":3,\"y\":5},{\"x\":3,\"y\":4},{\"x\":3,\"y\":3},{\"x\":3,\"y\":2},{\"x\":2,\"y\":2},{\"x\":1,\"y\":2},{\"x\":0,\"y\":2},{\"x\":0,\"y\":1},{\"x\":1,\"y\":1},{\"x\":2,\"y\":1},{\"x\":3,\"y\":1},{\"x\":4,\"y\":1},{\"x\":4,\"y\":2},{\"x\":5,\"y\":2},{\"x\":5,\"y\":3},{\"x\":4,\"y\":3},{\"x\":4,\"y\":4},{\"x\":5,\"y\":4},{\"x\":6,\"y\":4},{\"x\":7,\"y\":4},{\"x\":7,\"y\":5},{\"x\":8,\"y\":5},{\"x\":9,\"y\":5},{\"x\":10,\"y\":5}]}]},\"you\":{\"id\":\"gs_JKthCR7JhDktSWp3gyGVhQGX\",\"name\":\"lduchosal / albertfish-dev\",\"health\":87,\"body\":[{\"x\":1,\"y\":5},{\"x\":2,\"y\":5},{\"x\":2,\"y\":4},{\"x\":2,\"y\":3},{\"x\":1,\"y\":3},{\"x\":1,\"y\":4},{\"x\":0,\"y\":4},{\"x\":0,\"y\":5},{\"x\":0,\"y\":6},{\"x\":1,\"y\":6},{\"x\":2,\"y\":6},{\"x\":2,\"y\":7},{\"x\":2,\"y\":8},{\"x\":1,\"y\":8},{\"x\":0,\"y\":8},{\"x\":0,\"y\":9},{\"x\":1,\"y\":9},{\"x\":2,\"y\":9},{\"x\":3,\"y\":9},{\"x\":3,\"y\":8},{\"x\":3,\"y\":7},{\"x\":4,\"y\":7},{\"x\":4,\"y\":6},{\"x\":3,\"y\":6},{\"x\":3,\"y\":5},{\"x\":3,\"y\":4},{\"x\":3,\"y\":3},{\"x\":3,\"y\":2},{\"x\":2,\"y\":2},{\"x\":1,\"y\":2},{\"x\":0,\"y\":2},{\"x\":0,\"y\":1},{\"x\":1,\"y\":1},{\"x\":2,\"y\":1},{\"x\":3,\"y\":1},{\"x\":4,\"y\":1},{\"x\":4,\"y\":2},{\"x\":5,\"y\":2},{\"x\":5,\"y\":3},{\"x\":4,\"y\":3},{\"x\":4,\"y\":4},{\"x\":5,\"y\":4},{\"x\":6,\"y\":4},{\"x\":7,\"y\":4},{\"x\":7,\"y\":5},{\"x\":8,\"y\":5},{\"x\":9,\"y\":5},{\"x\":10,\"y\":5}]}}";
    let futur = build_futur(&game_from_json(game));
    // Our head is walled in: the tree is its root alone, and there is no path to show.
    assert_eq!(futur.count(), 1);
    assert!(longest_futur(&futur).is_empty());
    assert!(extreme_pathes(&longest_futur(&futur)).is_empty());
}
